//! High-level prediction API.
//!
//! Give it a run of consecutive `Math.random()` outputs from one browser/context
//! (as numerators over the power of two that the capture's values sit on, or
//! over `R²` for Hermes' non-dyadic grid) and it
//! (1) identifies the engine + era (and the browsers that ship it), and (2)
//! returns a [`Predictor`] that generates the values which come **next** and the
//! ones that came **before** — every supported generator can be rewound.
//!
//! Some eras (modern SpiderMonkey, V8 4.9 and 5.1–5.3, and the Stage A MWC of
//! V8 4.9's development builds) need an SMT solver to find their state.
//! Recovery is then a conversation: [`recover_start`] says which eight
//! numerators to hand the solver, [`question`] writes the question,
//! [`recover_resume`] takes the solver's answer, accepts it only by full
//! reproduction, and says what to ask next.
//!
//! Besides the browsers, the same stream predictions cover Dart (Flutter apps,
//! grid 2⁻⁵³) and Hermes' first era (React Native, grid `1/R²`).
//!
//! Presto/Opera is identified but not predictable (SNOW 2.0 CSPRNG).
use vstd::prelude::*;
use crate::engines::{all_close, close, lemma_close_self};
use crate::engines::{dart, hermes, jsc, jscript, spidermonkey, spidermonkey_legacy as sml, v8, v8_legacy, v8_libc};
use crate::engines::jsc::GameRand;
use crate::smt::{mwc_xor_script, mwc_xor_text, xorshift_script, xorshift_text, Shifts};
use crate::modular::{
    lemma_mask_is_mod, lemma_masked_step_after_prev, lemma_newton_drand48, lemma_newton_msvcrt,
    lemma_or_low, lemma_powers, lemma_shl_mul, lemma_shr_div, masked_prev, masked_step, newton,
};
use crate::prng::xorshift128plus::{
    iterate, lemma_next_after_prev, prev_spec, step_spec, XorShift128Plus,
};
use vstd::arithmetic::power2::pow2;
use vstd::bits::{lemma_u64_low_bits_mask_is_mod, lemma_u64_pow2_no_overflow, low_bits_mask};
use vstd::arithmetic::div_mod::lemma_fundamental_div_mod_converse;

verus! {

/// What produced a capture.
#[derive(Clone, Copy, Debug, PartialEq, Eq)]
pub struct Identification {
    pub engine: &'static str,
    pub algorithm: &'static str,
    pub browsers: &'static str,
    pub grid_bits: u32,
    pub time_seeded: &'static str,
    pub predictable: bool,
}

/// The recovered generator and where the capture starts in its stream.
#[derive(Clone, Copy)]
enum Gen {
    /// Reversed-64 cache, `s0 >> 12`.
    V8Modern { seed: XorShift128Plus, offset: usize },
    /// Reversed-64 cache, `s0 >> 11` over 2^53.
    V8Wide { seed: XorShift128Plus, offset: usize },
    /// In-order, `(s0+s1) & mask52`.
    V8StageB { seed: XorShift128Plus },
    /// Reversed-62 cache, `(s0+s1) & mask52`.
    V8Rev5x { seed: XorShift128Plus, offset: usize },
    /// Two MWC16 lanes, of one of the eras V8 shipped.
    Mwc(v8_legacy::Mwc),
    /// The `18030`/`36969` lanes xored into the mantissa (V8 4.9-dev Stage A).
    MwcStageA { s0: u32, s1: u32 },
    /// MSVCRT `rand()` twice per value.
    Libc(u32),
    /// In-order, low 53 bits of `s0+s1`.
    SmModern(XorShift128Plus),
    /// 48-bit LCG, 26+27 bits, over 2^53.
    Drand48Sm(u64),
    /// 48-bit LCG, 27+27 bits, over 2^54.
    Drand48Ie(u64),
    /// JavaScriptCore's GameRand.
    GameRand(GameRand),
    /// Dart's 64-bit multiply-with-carry, two steps per value, over 2^53.
    Dart(u64),
    /// Hermes' `std::minstd_rand`, two draws per value, over `R²`.
    HermesLcg(u32),
}

/// A recovered generator positioned at a capture, able to extend it both ways.
#[derive(Clone, Copy)]
pub struct Predictor {
    id: Identification,
    gen: Gen,
    observed: usize,
}

// ---- iteration of a step function, forwards and backwards ------------------

/// `k` applications of `f`.
pub open spec fn fiter<T>(f: spec_fn(T) -> T, s: T, k: nat) -> T
    decreases k,
{
    if k == 0 {
        s
    } else {
        f(fiter(f, s, (k - 1) as nat))
    }
}

/// `a` applications followed by `b` more are `a + b` applications.
proof fn lemma_fiter_add<T>(f: spec_fn(T) -> T, s: T, a: nat, b: nat)
    ensures
        fiter(f, fiter(f, s, a), b) == fiter(f, s, a + b),
    decreases b,
{
    if b > 0 {
        lemma_fiter_add(f, s, a, (b - 1) as nat);
        assert(fiter(f, s, a + b) == f(fiter(f, s, (a + b - 1) as nat)));
    }
}

/// Stepping forward `j` times from `k` steps back lands `k - j` steps back,
/// whenever each step back is undone by a step forward.
proof fn lemma_fiter_back<T>(f: spec_fn(T) -> T, g: spec_fn(T) -> T, s: T, k: nat, j: nat)
    requires
        j <= k,
        forall|m: nat| m < k ==> #[trigger] f(fiter(g, s, m + 1)) == fiter(g, s, m),
    ensures
        fiter(f, fiter(g, s, k), j) == fiter(g, s, (k - j) as nat),
    decreases j,
{
    if j > 0 {
        lemma_fiter_back(f, g, s, k, (j - 1) as nat);
        let m = (k - j) as nat;
        assert(f(fiter(g, s, m + 1)) == fiter(g, s, m));
    }
}

/// A step forward undoes every step back of a chain when it undoes any step
/// back taken inside a domain that steps back stay in.
proof fn lemma_chain<T>(f: spec_fn(T) -> T, g: spec_fn(T) -> T, dom: spec_fn(T) -> bool, s: T, k: nat)
    requires
        dom(s),
        forall|x: T| #[trigger] dom(x) ==> dom(g(x)) && f(g(x)) == x,
    ensures
        forall|m: nat| m < k ==> #[trigger] f(fiter(g, s, m + 1)) == fiter(g, s, m),
{
    assert forall|m: nat| m < k implies #[trigger] f(fiter(g, s, m + 1)) == fiter(g, s, m) by {
        lemma_fiter_dom(g, dom, s, m);
        assert(fiter(g, s, m + 1) == g(fiter(g, s, m)));
    }
}

proof fn lemma_fiter_dom<T>(g: spec_fn(T) -> T, dom: spec_fn(T) -> bool, s: T, m: nat)
    requires
        dom(s),
        forall|x: T| #[trigger] dom(x) ==> dom(g(x)),
    ensures
        dom(fiter(g, s, m)),
    decreases m,
{
    if m > 0 {
        lemma_fiter_dom(g, dom, s, (m - 1) as nat);
    }
}


// ---- the step functions of each generator ----------------------------------

/// One xorshift128+ step.
pub open spec fn xs_fwd() -> spec_fn(XorShift128Plus) -> XorShift128Plus {
    |x: XorShift128Plus| step_spec(x)
}

/// One xorshift128+ step back.
pub open spec fn xs_bwd() -> spec_fn(XorShift128Plus) -> XorShift128Plus {
    |x: XorShift128Plus| prev_spec(x)
}

/// The xorshift128+ state `k` steps from `seed` (backwards for negative `k`).
pub open spec fn xs_at(seed: XorShift128Plus, k: int) -> XorShift128Plus {
    if k >= 0 {
        fiter(xs_fwd(), seed, k as nat)
    } else {
        fiter(xs_bwd(), seed, (-k) as nat)
    }
}

/// One drand48 step.
pub open spec fn d48_fwd() -> spec_fn(u64) -> u64 {
    |x: u64| sml::step_spec(x)
}

/// One drand48 step back.
pub open spec fn d48_bwd() -> spec_fn(u64) -> u64 {
    |x: u64| masked_prev(x, sml::ADD, sml::INV, sml::MASK)
}

/// The drand48 state `k` steps from `seed` (backwards for negative `k`).
pub open spec fn d48_at(seed: u64, k: int) -> u64 {
    if k >= 0 {
        fiter(d48_fwd(), seed, k as nat)
    } else {
        fiter(d48_bwd(), seed, (-k) as nat)
    }
}

/// One MSVCRT `rand()` step.
pub open spec fn libc_fwd() -> spec_fn(u32) -> u32 {
    |x: u32| v8_libc::lcg_spec(x)
}

/// One MSVCRT `rand()` step back.
pub open spec fn libc_bwd() -> spec_fn(u32) -> u32 {
    |x: u32| masked_prev(x as u64, v8_libc::C, v8_libc::INV_A, v8_libc::MASK32) as u32
}

/// The `rand()` state `k` steps from `st` (backwards for negative `k`).
pub open spec fn libc_at(st: u32, k: int) -> u32 {
    if k >= 0 {
        fiter(libc_fwd(), st, k as nat)
    } else {
        fiter(libc_bwd(), st, (-k) as nat)
    }
}

/// One GameRand advance.
pub open spec fn gr_fwd() -> spec_fn(GameRand) -> GameRand {
    |x: GameRand| jsc::advance_spec(x)
}

/// One GameRand step back.
pub open spec fn gr_bwd() -> spec_fn(GameRand) -> GameRand {
    |x: GameRand| jsc::back_spec(x)
}

/// The GameRand state `k` advances from `g` (backwards for negative `k`).
pub open spec fn gr_at(g: GameRand, k: int) -> GameRand {
    if k >= 0 {
        fiter(gr_fwd(), g, k as nat)
    } else {
        fiter(gr_bwd(), g, (-k) as nat)
    }
}

/// One Dart MWC step.
pub open spec fn dart_fwd() -> spec_fn(u64) -> u64 {
    |x: u64| dart::next_spec(x)
}

/// One Dart MWC step back.
pub open spec fn dart_bwd() -> spec_fn(u64) -> u64 {
    |x: u64| dart::prev_spec(x)
}

/// The Dart state `k` steps from `st` (backwards for negative `k`).
pub open spec fn dart_at(st: u64, k: int) -> u64 {
    if k >= 0 {
        fiter(dart_fwd(), st, k as nat)
    } else {
        fiter(dart_bwd(), st, (-k) as nat)
    }
}

/// Rewinding `n` Dart values meets only states a step can produce, so each
/// step back is undone by a step forward.
pub open spec fn dart_rewind_exact(st: u64, n: nat) -> bool {
    forall|m: nat| m < 2 * n ==> #[trigger] fiter(dart_bwd(), st, m) <= dart::MAX_NEXT
}

/// One MINSTD step.
pub open spec fn hermes_fwd() -> spec_fn(u32) -> u32 {
    |x: u32| hermes::step_spec(x)
}

/// One MINSTD step back: multiplication by the inverse of the multiplier.
pub open spec fn hermes_bwd() -> spec_fn(u32) -> u32 {
    |x: u32| ((x * hermes::A_INV) % (hermes::M as int)) as u32
}

/// The MINSTD state `k` steps from `st` (backwards for negative `k`).
pub open spec fn hermes_at(st: u32, k: int) -> u32 {
    if k >= 0 {
        fiter(hermes_fwd(), st, k as nat)
    } else {
        fiter(hermes_bwd(), st, (-k) as nat)
    }
}

/// The predecessor search of one MWC lane, from candidate `d` on: the largest
/// low half (at most six below `s2 / mult`) whose state steps onto `s2`, or
/// `s2` itself when none does.
pub open spec fn lane_prev_from(s2: u32, mult: u64, d: nat) -> u32
    decreases 7 - d,
{
    if d > 6 {
        s2
    } else {
        let base = (s2 as u64) / mult;
        let lo = if base >= d {
            (base - d) as u64
        } else {
            0u64
        };
        let hi = (s2 as u64).wrapping_sub((mult * lo) as u64);
        let cand = ((hi << 16u64) | lo) as u32;
        if hi < 0x1_0000 && v8_legacy::lane_step_spec(cand, mult) == s2 {
            cand
        } else {
            lane_prev_from(s2, mult, d + 1)
        }
    }
}

/// A lane state with a predecessor is stepped back onto one: the search for
/// the predecessor meets a state that steps forward to where it started.
pub proof fn lemma_lane_prev_exact(x: u32, mult: u64)
    requires
        0x2493 <= mult < 0x1_0000,
    ensures
        v8_legacy::lane_step_spec(
            lane_prev_from(v8_legacy::lane_step_spec(x, mult), mult, 0),
            mult,
        ) == v8_legacy::lane_step_spec(x, mult),
{
    let h = (x / 0x1_0000) as int;
    assert(h / (mult as int) <= 6) by (nonlinear_arith)
        requires
            0 <= h < 0x1_0000,
            mult >= 0x2493,
    ;
    lemma_lane_prev_from(x, mult, 0);
}

/// A lane state whose high half is below the multiplier is the one a step back
/// from its successor finds.
pub proof fn lemma_lane_prev_of_step(x: u32, mult: u64)
    requires
        0 < mult < 0x1_0000,
        x / 0x1_0000 < mult,
    ensures
        lane_prev_from(v8_legacy::lane_step_spec(x, mult), mult, 0) == x,
{
    let l = (x % 0x1_0000) as u64;
    let h = (x / 0x1_0000) as u64;
    assert(mult * l <= 0xffff * 0xffff) by (nonlinear_arith)
        requires
            mult < 0x1_0000,
            l < 0x1_0000,
    ;
    let s2 = v8_legacy::lane_step_spec(x, mult);
    assert(s2 as int == mult * l + h);
    assert(s2 as int == (l as int) * (mult as int) + (h as int)) by (nonlinear_arith)
        requires
            s2 as int == mult * l + h,
    ;
    lemma_fundamental_div_mod_converse(s2 as int, mult as int, l as int, h as int);
    let base = (s2 as u64) / mult;
    assert(base == l);
    let hi = (s2 as u64).wrapping_sub((mult * base) as u64);
    assert(hi == h);
    lemma_lane_candidate(h, l);
    lemma_fundamental_div_mod_converse(x as int, 0x1_0000, h as int, l as int);
    assert((((hi << 16u64) | base) as u32) == x);
}

/// The predecessor search from candidate `d` on, while `d` has not passed the
/// distance to `x`'s low half, ends on a state that steps onto `x`'s successor.
proof fn lemma_lane_prev_from(x: u32, mult: u64, d: nat)
    requires
        0 < mult < 0x1_0000,
        d <= (x / 0x1_0000) as int / mult as int,
        (x / 0x1_0000) as int / mult as int <= 6,
    ensures
        v8_legacy::lane_step_spec(
            lane_prev_from(v8_legacy::lane_step_spec(x, mult), mult, d),
            mult,
        ) == v8_legacy::lane_step_spec(x, mult),
    decreases 7 - d,
{
    let l = (x % 0x1_0000) as u64;
    let h = (x / 0x1_0000) as u64;
    assert(mult * l <= 0xffff * 0xffff) by (nonlinear_arith)
        requires
            mult < 0x1_0000,
            l < 0x1_0000,
    ;
    let s2 = v8_legacy::lane_step_spec(x, mult);
    assert(s2 as int == mult * l + h);
    let base = (s2 as u64) / mult;
    assert(base == l + h / mult) by (nonlinear_arith)
        requires
            base == (s2 as u64) / mult,
            s2 as int == mult * l + h,
            mult > 0,
            l >= 0,
            h >= 0,
    {
        lemma_fundamental_div_mod_converse(
            s2 as int,
            mult as int,
            (l + h / mult) as int,
            (h % mult) as int,
        );
    }
    if d == h / mult {
        let lo = (base - d) as u64;
        assert(lo == l);
        let hi = (s2 as u64).wrapping_sub((mult * lo) as u64);
        assert(hi == h);
        lemma_lane_candidate(h, l);
        assert((((hi << 16u64) | lo) as u32) == x);
    } else {
        lemma_lane_prev_from(x, mult, d + 1);
        let lo = if base >= d {
            (base - d) as u64
        } else {
            0u64
        };
        let hi = (s2 as u64).wrapping_sub((mult * lo) as u64);
        let cand = ((hi << 16u64) | lo) as u32;
        if hi < 0x1_0000 && v8_legacy::lane_step_spec(cand, mult) == s2 {
        } else {
            assert(lane_prev_from(s2, mult, d) == lane_prev_from(s2, mult, d + 1));
        }
    }
}

/// The 32-bit state made of high half `h` and low half `l`.
proof fn lemma_lane_candidate(h: u64, l: u64)
    requires
        h < 0x1_0000,
        l < 0x1_0000,
    ensures
        (((h << 16u64) | l) as u32) as int == h * 0x1_0000 + l,
        ((h * 0x1_0000 + l) as u32) / 0x1_0000 == h,
{
    lemma_powers();
    lemma_shl_mul(h, 16);
    assert(1u64 << 16u64 == 0x1_0000) by (bit_vector);
    lemma_or_low(h, l, 16);
}

/// One MWC lane step.
pub open spec fn lane_fwd(mult: u64) -> spec_fn(u32) -> u32 {
    |x: u32| v8_legacy::lane_step_spec(x, mult)
}

/// One MWC lane step back.
pub open spec fn lane_bwd(mult: u64) -> spec_fn(u32) -> u32 {
    |x: u32| lane_prev_from(x, mult, 0)
}

/// The lane state `k` steps from `s` (backwards for negative `k`).
pub open spec fn lane_at(s: u32, mult: u64, k: int) -> u32 {
    if k >= 0 {
        fiter(lane_fwd(mult), s, k as nat)
    } else {
        fiter(lane_bwd(mult), s, (-k) as nat)
    }
}

/// Every step back of a lane chain is undone by a step forward.
pub open spec fn lane_rewind_exact(s: u32, mult: u64, n: nat) -> bool {
    forall|m: nat| m < n ==> #[trigger] lane_fwd(mult)(fiter(lane_bwd(mult), s, m + 1)) == fiter(lane_bwd(mult), s, m)
}

/// How a V8 era turns a post-step xorshift128+ state into a numerator.
#[derive(Clone, Copy)]
pub enum Conv {
    /// `s0 >> 12`, over 2^52 (V8 7.1 to 13.4).
    High52,
    /// `(s0 + s1) & mask52`, over 2^52 (V8 4.9 to 6.x).
    SumLow52,
    /// `s0 >> 11`, over 2^53 (V8 13.5 on).
    High53,
}

/// The numerator a V8 conversion makes of a post-step state.
pub open spec fn v8_conv(st: XorShift128Plus, conv: Conv) -> u64 {
    match conv {
        Conv::High52 => v8::mantissa(st.s0),
        Conv::SumLow52 => v8::sum_low52(st),
        Conv::High53 => v8::top(st.s0, 11),
    }
}

/// Value served at (signed) served-index `s` for a V8 reversed cache of `batch`
/// generations: batch `s / batch` (floor) starts that many batches from `seed`,
/// and its position `s % batch` is served from generation `batch - 1 - pos`.
pub open spec fn served_value(seed: XorShift128Plus, batch: int, conv: Conv, s: int) -> u64 {
    v8_conv(fiter(xs_fwd(), xs_at(seed, (s / batch) * batch), (batch - s % batch) as nat), conv)
}

// ---- relating each engine's own iteration to the step functions -------------

proof fn lemma_iterate_fiter(s: XorShift128Plus, k: nat)
    ensures
        iterate(s, k) == fiter(xs_fwd(), s, k),
    decreases k,
{
    if k > 0 {
        lemma_iterate_fiter(s, (k - 1) as nat);
    }
}

proof fn lemma_sml_iter_fiter(s: u64, k: nat)
    ensures
        sml::iter(s, k) == fiter(d48_fwd(), s, k),
        jscript::iter(s, k) == fiter(d48_fwd(), s, k),
    decreases k,
{
    if k > 0 {
        lemma_sml_iter_fiter(s, (k - 1) as nat);
    }
}

proof fn lemma_libc_iter_fiter(s: u32, k: nat)
    ensures
        v8_libc::iter(s, k) == fiter(libc_fwd(), s, k),
    decreases k,
{
    if k > 0 {
        lemma_libc_iter_fiter(s, (k - 1) as nat);
    }
}

proof fn lemma_gr_iter_fiter(s: GameRand, k: nat)
    ensures
        jsc::iter(s, k) == fiter(gr_fwd(), s, k),
    decreases k,
{
    if k > 0 {
        lemma_gr_iter_fiter(s, (k - 1) as nat);
    }
}

proof fn lemma_lane_iter_fiter(s: u32, mult: u64, k: nat)
    ensures
        v8_legacy::lane_iter(s, mult, k) == fiter(lane_fwd(mult), s, k),
    decreases k,
{
    if k > 0 {
        lemma_lane_iter_fiter(s, mult, (k - 1) as nat);
    }
}

/// Every xorshift128+ chain of steps back is undone step by step.
proof fn lemma_xs_chain(s: XorShift128Plus, k: nat)
    ensures
        forall|m: nat| m < k ==> #[trigger] xs_fwd()(fiter(xs_bwd(), s, m + 1)) == fiter(xs_bwd(), s, m),
{
    let dom = |x: XorShift128Plus| true;
    assert forall|x: XorShift128Plus| #[trigger] dom(x) implies dom(xs_bwd()(x)) && xs_fwd()(xs_bwd()(x)) == x by {
        lemma_next_after_prev(x);
    }
    lemma_chain(xs_fwd(), xs_bwd(), dom, s, k);
}

/// Every drand48 chain of steps back from a 48-bit state is undone step by step.
proof fn lemma_d48_chain(s: u64, k: nat)
    requires
        s <= sml::MASK,
    ensures
        forall|m: nat| m < k ==> #[trigger] d48_fwd()(fiter(d48_bwd(), s, m + 1)) == fiter(d48_bwd(), s, m),
        forall|m: nat| #[trigger] fiter(d48_bwd(), s, m) <= sml::MASK,
{
    let dom = |x: u64| x <= sml::MASK;
    assert forall|x: u64| #[trigger] dom(x) implies dom(d48_bwd()(x)) && d48_fwd()(d48_bwd()(x)) == x by {
        assert((sml::INV * sml::MULT) % (sml::MASK + 1) == 1);
        lemma_masked_step_after_prev(x, sml::MULT, sml::ADD, sml::INV, sml::MASK);
        lemma_mask_is_mod(((x + sml::MASK + 1 - sml::ADD) as u64 & sml::MASK).wrapping_mul(sml::INV), sml::MASK);
    }
    lemma_chain(d48_fwd(), d48_bwd(), dom, s, k);
    assert forall|m: nat| #[trigger] fiter(d48_bwd(), s, m) <= sml::MASK by {
        lemma_fiter_dom(d48_bwd(), dom, s, m);
    }
}

/// Every `rand()` chain of steps back is undone step by step.
proof fn lemma_libc_chain(s: u32, k: nat)
    ensures
        forall|m: nat| m < k ==> #[trigger] libc_fwd()(fiter(libc_bwd(), s, m + 1)) == fiter(libc_bwd(), s, m),
{
    let dom = |x: u32| true;
    assert forall|x: u32| #[trigger] dom(x) implies dom(libc_bwd()(x)) && libc_fwd()(libc_bwd()(x)) == x by {
        let t = x as u64;
        assert((v8_libc::INV_A * v8_libc::A) % (v8_libc::MASK32 + 1) == 1);
        lemma_masked_step_after_prev(t, v8_libc::A, v8_libc::C, v8_libc::INV_A, v8_libc::MASK32);
        let p = masked_prev(t, v8_libc::C, v8_libc::INV_A, v8_libc::MASK32);
        lemma_mask_is_mod(((t + v8_libc::MASK32 + 1 - v8_libc::C) as u64 & v8_libc::MASK32).wrapping_mul(v8_libc::INV_A), v8_libc::MASK32);
        assert(p <= v8_libc::MASK32);
        assert((p as u32) as u64 == p);
        lemma_mask_is_mod(masked_step(p, v8_libc::A, v8_libc::C, v8_libc::MASK32), v8_libc::MASK32);
    }
    lemma_chain(libc_fwd(), libc_bwd(), dom, s, k);
}

/// Every GameRand chain of steps back is undone step by step.
proof fn lemma_gr_chain(s: GameRand, k: nat)
    ensures
        forall|m: nat| m < k ==> #[trigger] gr_fwd()(fiter(gr_bwd(), s, m + 1)) == fiter(gr_bwd(), s, m),
{
    let dom = |x: GameRand| true;
    assert forall|x: GameRand| #[trigger] dom(x) implies dom(gr_bwd()(x)) && gr_fwd()(gr_bwd()(x)) == x by {
        jsc::lemma_advance_after_back(x);
    }
    lemma_chain(gr_fwd(), gr_bwd(), dom, s, k);
}


// ---- small primitives for backward stepping --------------------------------

/// Inverse of an odd `a` modulo 2^bits (six Newton rounds).
fn modinv_pow2(a: u64, bits: u32) -> (r: u64)
    ensures
        bits >= 64 ==> r == newton(a, 6),
        bits < 64 ==> r == newton(a, 6) % (pow2(bits as nat) as u64),
{
    let mut x: u64 = 1;
    let mut i: usize = 0;
    while i < 6
        invariant
            i <= 6,
            x == newton(a, i as nat),
        decreases 6 - i,
    {
        x = x.wrapping_mul(2u64.wrapping_sub(a.wrapping_mul(x)));
        i = i + 1;
    }
    if bits >= 64 {
        x
    } else {
        let b = bits as u64;
        proof {
            lemma_u64_pow2_no_overflow(b as nat);
            lemma_shl_mul(1, b);
            lemma_u64_low_bits_mask_is_mod(x, b as nat);
            assert(low_bits_mask(b as nat) == pow2(b as nat) - 1);
        }
        x & ((1u64 << b) - 1)
    }
}

/// One drand48 step back.
fn d48_prev(s: u64) -> (r: u64)
    requires
        s <= sml::MASK,
    ensures
        r == d48_bwd()(s),
        r <= sml::MASK,
{
    let inv = modinv_pow2(sml::MULT, 48);
    proof {
        lemma_newton_drand48();
        vstd::arithmetic::power2::lemma2_to64_rest();
        assert(pow2(48) == 0x1_0000_0000_0000);
        assert(0x7b13_dfe0_5bcb_1365u64 % 0x1_0000_0000_0000u64 == 0xdfe0_5bcb_1365u64);
        assert(inv == sml::INV);
        lemma_mask_is_mod(((s + sml::MASK + 1 - sml::ADD) as u64 & sml::MASK).wrapping_mul(inv), sml::MASK);
    }
    ((s + sml::MASK + 1 - sml::ADD) & sml::MASK).wrapping_mul(inv) & sml::MASK
}

/// One MSVCRT `rand()` step back.
fn libc_prev(s: u32) -> (r: u32)
    ensures
        r == libc_bwd()(s),
{
    let inv = modinv_pow2(v8_libc::A, 32);
    proof {
        lemma_newton_msvcrt();
        vstd::arithmetic::power2::lemma2_to64();
        assert(pow2(32) == 0x1_0000_0000);
        assert(0x3353_2b79_b9b3_3155u64 % 0x1_0000_0000u64 == 0xb9b3_3155u64);
        assert(inv == v8_libc::INV_A);
    }
    #[verifier::truncate] (((((s as u64) + 0x1_0000_0000 - v8_libc::C) & 0xffff_ffff).wrapping_mul(inv) & 0xffff_ffff) as u32)
}

/// One MINSTD step back.
fn hermes_prev(s: u32, inv: u64) -> (r: u32)
    requires
        inv == hermes::A_INV,
        s < hermes::M,
    ensures
        r == hermes_bwd()(s),
{
    proof {
        assert(s * inv <= u64::MAX) by (nonlinear_arith)
            requires
                s < hermes::M,
                inv == hermes::A_INV,
        ;
    }
    hermes::prev(s, inv)
}

/// One MWC lane step back: the predecessor with the largest low half.
fn mwc_lane_prev(s2: u32, mult: u64) -> (r: u32)
    requires
        0 < mult < 0x1_0000,
    ensures
        r == lane_prev_from(s2, mult, 0),
{
    let base = (s2 as u64) / mult;
    let mut d: u64 = 0;
    while d <= 6
        invariant
            d <= 7,
            0 < mult < 0x1_0000,
            base == (s2 as u64) / mult,
            lane_prev_from(s2, mult, 0) == lane_prev_from(s2, mult, d as nat),
        decreases 7 - d,
    {
        let lo = base.saturating_sub(d);
        assert(mult * lo <= s2) by (nonlinear_arith)
            requires
                lo <= base,
                base == (s2 as u64) / mult,
                mult > 0,
        ;
        let hi = (s2 as u64).wrapping_sub(mult * lo);
        if hi < 0x1_0000 {
            let cand = #[verifier::truncate] (((hi << 16) | lo) as u32);
            if v8_legacy::lane_step(cand, mult) == s2 {
                return cand;
            }
        }
        d = d + 1;
    }
    s2
}

/// One GameRand step back.
fn gamerand_back(g: GameRand) -> (r: GameRand)
    ensures
        r == jsc::back_spec(g),
{
    let low = g.low.wrapping_sub(g.high);
    let high = jsc::rot16_exec(g.high.wrapping_sub(low));
    GameRand { low, high }
}

/// Value served at (signed) served-index `s` for a V8 reversed cache of `batch`
/// gens. Negative `s` reaches earlier batches by stepping the state backward.
/// `conv` is the era's conversion of a state to a numerator.
fn v8_served(seed: XorShift128Plus, batch: u64, conv: Conv, s: i64) -> (r: u64)
    requires
        batch == 62 || batch == 64,
        -0x1_0000_0000_0000 <= s <= 0x1_0000_0000_0000,
    ensures
        r == served_value(seed, batch as int, conv, s as int),
{
    // Floor division of the served index by the batch size.
    let (back, bq, pos): (bool, u64, u64) = if s >= 0 {
        (false, (s as u64) / batch, (s as u64) % batch)
    } else {
        let t = (-(s + 1)) as u64;
        (true, t / batch + 1, batch - 1 - t % batch)
    };
    proof {
        let si = s as int;
        let bi = batch as int;
        if s >= 0 {
            assert(si / bi == bq && si % bi == pos);
        } else {
            let t = -(si + 1);
            vstd::arithmetic::div_mod::lemma_fundamental_div_mod(t, bi);
            assert(bq * bi == (t / bi) * bi + bi) by (nonlinear_arith)
                requires
                    bq == t / bi + 1,
            ;
            lemma_fundamental_div_mod_converse(si, bi, -(bq as int), pos as int);
        }
    }
    assert(bq * batch <= 0x1_0000_0000_0000 + 64) by (nonlinear_arith)
        requires
            batch == 62 || batch == 64,
            (s >= 0 && bq == s as int / batch as int) || (s < 0 && bq == (-(s as int + 1)) / batch as int + 1),
            -0x1_0000_0000_0000 <= s <= 0x1_0000_0000_0000,
    ;
    let steps = bq * batch;
    let mut st = seed;
    let mut i: u64 = 0;
    while i < steps
        invariant
            i <= steps,
            back ==> st == fiter(xs_bwd(), seed, i as nat),
            !back ==> st == fiter(xs_fwd(), seed, i as nat),
        decreases steps - i,
    {
        if back {
            st.prev_state();
        } else {
            st.next_state();
        }
        i = i + 1;
    }
    proof {
        let k = (s as int / batch as int) * batch as int;
        if back {
            assert(k == -(steps as int));
        } else {
            assert(k == steps as int);
        }
        assert(st == xs_at(seed, k));
    }
    let base = st;
    let g = batch - pos;
    let mut j: u64 = 0;
    while j < g
        invariant
            j <= g,
            st == fiter(xs_fwd(), base, j as nat),
        decreases g - j,
    {
        st.next_state();
        j = j + 1;
    }
    match conv {
        Conv::High52 => v8::to_double(st.s0),
        Conv::SumLow52 => st.sum() % v8::P52,
        Conv::High53 => {
            proof {
                lemma_shr_div(st.s0, 11);
                lemma_powers();
            }
            st.s0 >> 11
        },
    }
}


// ---- where the engines' own streams sit among the positions -----------------

/// Modern V8's served stream is the cache walk at non-negative indices.
proof fn lemma_fwd_v8(seed: XorShift128Plus, m: nat, s: int)
    requires
        0 <= s < m,
    ensures
        v8::served(seed, m)[s] == served_value(seed, 64, Conv::High52, s),
        v8::served_5x(seed, m)[s] == served_value(seed, 62, Conv::SumLow52, s),
        v8::served_53(seed, m)[s] == served_value(seed, 64, Conv::High53, s),
{
    let q = (s / 64) * 64;
    lemma_fiter_add(xs_fwd(), seed, q as nat, (64 - s % 64) as nat);
    lemma_iterate_fiter(seed, (v8::gen_index_spec(0, s as nat) + 1) as nat);
    let q5 = (s / 62) * 62;
    lemma_fiter_add(xs_fwd(), seed, q5 as nat, (62 - s % 62) as nat);
    lemma_iterate_fiter(seed, (v8::gen_index_5x(s as nat) + 1) as nat);
}

/// The in-order xorshift128+ streams step forward from the seed.
proof fn lemma_fwd_xs(seed: XorShift128Plus, k: nat)
    ensures
        iterate(seed, k + 1) == xs_at(seed, (k + 1) as int),
{
    lemma_iterate_fiter(seed, k + 1);
}

/// Rewinding `n` xorshift128+ steps and stepping `i + 1` forward lands at
/// position `i + 1 - n`.
proof fn lemma_bwd_xs(seed: XorShift128Plus, n: nat, i: nat)
    requires
        i < n,
    ensures
        iterate(fiter(xs_bwd(), seed, n), i + 1) == xs_at(seed, i + 1 - n),
{
    let y = fiter(xs_bwd(), seed, n);
    lemma_iterate_fiter(y, i + 1);
    lemma_xs_chain(seed, n);
    lemma_fiter_back(xs_fwd(), xs_bwd(), seed, n, i + 1);
}

/// The drand48 streams of both engines, read at position `k`.
proof fn lemma_fwd_d48(seed: u64, k: nat)
    requires
        seed <= sml::MASK,
    ensures
        sml::output(seed & sml::MASK, k) == sml::output(d48_at(seed, (2 * k) as int), 0),
        jscript::output(seed & sml::MASK, k) == jscript::output(d48_at(seed, (2 * k) as int), 0),
{
    lemma_mask_is_mod(seed, sml::MASK);
    let x = fiter(d48_fwd(), seed, 2 * k);
    lemma_sml_iter_fiter(seed, 2 * k + 1);
    lemma_sml_iter_fiter(seed, 2 * k + 2);
    lemma_sml_iter_fiter(x, 1);
    lemma_sml_iter_fiter(x, 2);
    lemma_fiter_add(d48_fwd(), seed, 2 * k, 1);
    lemma_fiter_add(d48_fwd(), seed, 2 * k, 2);
}

/// Rewinding `2n` drand48 steps and reading output `i` gives position `i - n`.
proof fn lemma_bwd_d48(seed: u64, n: nat, i: nat)
    requires
        seed <= sml::MASK,
        i < n,
    ensures
        fiter(d48_bwd(), seed, 2 * n) <= sml::MASK,
        sml::output(fiter(d48_bwd(), seed, 2 * n) & sml::MASK, i) == sml::output(d48_at(seed, 2 * (i - n)), 0),
        jscript::output(fiter(d48_bwd(), seed, 2 * n) & sml::MASK, i) == jscript::output(d48_at(seed, 2 * (i - n)), 0),
{
    let y = fiter(d48_bwd(), seed, 2 * n);
    lemma_d48_chain(seed, 2 * n);
    assert(y <= sml::MASK);
    lemma_mask_is_mod(y, sml::MASK);
    lemma_fiter_back(d48_fwd(), d48_bwd(), seed, 2 * n, 2 * i);
    let x = fiter(d48_bwd(), seed, (2 * n - 2 * i) as nat);
    assert(d48_at(seed, 2 * (i - n)) == x);
    lemma_sml_iter_fiter(y, 2 * i + 1);
    lemma_sml_iter_fiter(y, 2 * i + 2);
    lemma_sml_iter_fiter(x, 1);
    lemma_sml_iter_fiter(x, 2);
    lemma_fiter_add(d48_fwd(), y, 2 * i, 1);
    lemma_fiter_add(d48_fwd(), y, 2 * i, 2);
}

/// The `rand()` stream read at position `k`.
proof fn lemma_fwd_libc(st: u32, k: nat)
    ensures
        v8_libc::output(st, k) == v8_libc::output(libc_at(st, (2 * k) as int), 0),
{
    let x = fiter(libc_fwd(), st, 2 * k);
    lemma_libc_iter_fiter(st, 2 * k + 1);
    lemma_libc_iter_fiter(st, 2 * k + 2);
    lemma_libc_iter_fiter(x, 1);
    lemma_libc_iter_fiter(x, 2);
    lemma_fiter_add(libc_fwd(), st, 2 * k, 1);
    lemma_fiter_add(libc_fwd(), st, 2 * k, 2);
}

/// Rewinding `2n` `rand()` steps and reading output `i` gives position `i - n`.
proof fn lemma_bwd_libc(st: u32, n: nat, i: nat)
    requires
        i < n,
    ensures
        v8_libc::output(fiter(libc_bwd(), st, 2 * n), i) == v8_libc::output(libc_at(st, 2 * (i - n)), 0),
{
    let y = fiter(libc_bwd(), st, 2 * n);
    lemma_libc_chain(st, 2 * n);
    lemma_fiter_back(libc_fwd(), libc_bwd(), st, 2 * n, 2 * i);
    let x = fiter(libc_bwd(), st, (2 * n - 2 * i) as nat);
    lemma_libc_iter_fiter(y, 2 * i + 1);
    lemma_libc_iter_fiter(y, 2 * i + 2);
    lemma_libc_iter_fiter(x, 1);
    lemma_libc_iter_fiter(x, 2);
    lemma_fiter_add(libc_fwd(), y, 2 * i, 1);
    lemma_fiter_add(libc_fwd(), y, 2 * i, 2);
}

proof fn lemma_dart_iter_fiter(s: u64, k: nat)
    ensures
        dart::iter(s, k) == fiter(dart_fwd(), s, k),
    decreases k,
{
    if k > 0 {
        lemma_dart_iter_fiter(s, (k - 1) as nat);
    }
}

proof fn lemma_hermes_iter_fiter(s: u32, k: nat)
    ensures
        hermes::iter(s, k) == fiter(hermes_fwd(), s, k),
    decreases k,
{
    if k > 0 {
        lemma_hermes_iter_fiter(s, (k - 1) as nat);
    }
}

/// The Dart stream read at position `k`.
proof fn lemma_fwd_dart(st: u64, k: nat)
    ensures
        dart::output(st, k) == dart::output(dart_at(st, (2 * k) as int), 0),
{
    let x = fiter(dart_fwd(), st, 2 * k);
    lemma_dart_iter_fiter(st, 2 * k + 1);
    lemma_dart_iter_fiter(st, 2 * k + 2);
    lemma_dart_iter_fiter(x, 1);
    lemma_dart_iter_fiter(x, 2);
    lemma_fiter_add(dart_fwd(), st, 2 * k, 1);
    lemma_fiter_add(dart_fwd(), st, 2 * k, 2);
}

/// Every Dart chain of steps back through states a step can produce is undone
/// step by step.
proof fn lemma_dart_chain(st: u64, n: nat)
    requires
        dart_rewind_exact(st, n),
    ensures
        forall|m: nat| m < 2 * n ==> #[trigger] dart_fwd()(fiter(dart_bwd(), st, m + 1)) == fiter(dart_bwd(), st, m),
{
    assert forall|m: nat| m < 2 * n implies #[trigger] dart_fwd()(fiter(dart_bwd(), st, m + 1)) == fiter(
        dart_bwd(),
        st,
        m,
    ) by {
        let x = fiter(dart_bwd(), st, m);
        assert(x <= dart::MAX_NEXT);
        dart::lemma_next_after_prev(x);
        assert(fiter(dart_bwd(), st, m + 1) == dart::prev_spec(x));
    }
}

/// Rewinding `2n` exact Dart steps and reading output `i` gives position `i - n`.
proof fn lemma_bwd_dart(st: u64, n: nat, i: nat)
    requires
        i < n,
        dart_rewind_exact(st, n),
    ensures
        dart::output(fiter(dart_bwd(), st, 2 * n), i) == dart::output(dart_at(st, 2 * (i - n)), 0),
{
    let y = fiter(dart_bwd(), st, 2 * n);
    lemma_dart_chain(st, n);
    lemma_fiter_back(dart_fwd(), dart_bwd(), st, 2 * n, 2 * i);
    let x = fiter(dart_bwd(), st, (2 * n - 2 * i) as nat);
    lemma_dart_iter_fiter(y, 2 * i + 1);
    lemma_dart_iter_fiter(y, 2 * i + 2);
    lemma_dart_iter_fiter(x, 1);
    lemma_dart_iter_fiter(x, 2);
    lemma_fiter_add(dart_fwd(), y, 2 * i, 1);
    lemma_fiter_add(dart_fwd(), y, 2 * i, 2);
}

/// A MINSTD step back stays among the nonzero residues and is undone by a step.
proof fn lemma_hermes_back(x: u32)
    requires
        0 < x < hermes::M,
    ensures
        0 < hermes_bwd()(x) < hermes::M,
        hermes_fwd()(hermes_bwd()(x)) == x,
{
    hermes::lemma_step_after_prev(x);
    let y = hermes_bwd()(x);
    if y == 0 {
        assert(hermes::step_spec(0) == 0);
    }
}

/// Every MINSTD chain of steps back is undone step by step, and stays among
/// the nonzero residues.
proof fn lemma_hermes_chain(st: u32, k: nat)
    requires
        0 < st < hermes::M,
    ensures
        forall|m: nat| m < k ==> #[trigger] hermes_fwd()(fiter(hermes_bwd(), st, m + 1)) == fiter(hermes_bwd(), st, m),
        forall|m: nat| 0 < #[trigger] fiter(hermes_bwd(), st, m) < hermes::M,
{
    let dom = |x: u32| 0 < x < hermes::M;
    assert forall|x: u32| #[trigger] dom(x) implies dom(hermes_bwd()(x)) && hermes_fwd()(hermes_bwd()(x)) == x by {
        lemma_hermes_back(x);
    }
    lemma_chain(hermes_fwd(), hermes_bwd(), dom, st, k);
    assert forall|m: nat| 0 < #[trigger] fiter(hermes_bwd(), st, m) < hermes::M by {
        lemma_fiter_dom(hermes_bwd(), dom, st, m);
    }
}

/// The MINSTD stream read at position `k`.
proof fn lemma_fwd_hermes(st: u32, k: nat)
    ensures
        hermes::output(st, k) == hermes::output(hermes_at(st, (2 * k) as int), 0),
{
    let x = fiter(hermes_fwd(), st, 2 * k);
    lemma_hermes_iter_fiter(st, 2 * k + 1);
    lemma_hermes_iter_fiter(st, 2 * k + 2);
    lemma_hermes_iter_fiter(x, 1);
    lemma_hermes_iter_fiter(x, 2);
    lemma_fiter_add(hermes_fwd(), st, 2 * k, 1);
    lemma_fiter_add(hermes_fwd(), st, 2 * k, 2);
}

/// Rewinding `2n` MINSTD steps and reading output `i` gives position `i - n`.
proof fn lemma_bwd_hermes(st: u32, n: nat, i: nat)
    requires
        i < n,
        0 < st < hermes::M,
    ensures
        hermes::output(fiter(hermes_bwd(), st, 2 * n), i) == hermes::output(hermes_at(st, 2 * (i - n)), 0),
{
    let y = fiter(hermes_bwd(), st, 2 * n);
    lemma_hermes_chain(st, 2 * n);
    lemma_fiter_back(hermes_fwd(), hermes_bwd(), st, 2 * n, 2 * i);
    let x = fiter(hermes_bwd(), st, (2 * n - 2 * i) as nat);
    lemma_hermes_iter_fiter(y, 2 * i + 1);
    lemma_hermes_iter_fiter(y, 2 * i + 2);
    lemma_hermes_iter_fiter(x, 1);
    lemma_hermes_iter_fiter(x, 2);
    lemma_fiter_add(hermes_fwd(), y, 2 * i, 1);
    lemma_fiter_add(hermes_fwd(), y, 2 * i, 2);
}

/// The two MWC lanes read at position `k`.
proof fn lemma_fwd_mwc(m: v8_legacy::Mwc, k: nat)
    ensures
        v8_legacy::mwc_output(m, k) == v8_legacy::fold(
            lane_at(m.s0, m.mult0, k as int),
            lane_at(m.s1, m.mult1, k as int),
            m.combine,
        ),
{
    lemma_lane_iter_fiter(m.s0, m.mult0, k);
    lemma_lane_iter_fiter(m.s1, m.mult1, k);
}

/// The Stage A lanes read at position `k`.
proof fn lemma_fwd_stage_a(s0: u32, s1: u32, k: nat)
    ensures
        v8_legacy::stage_a_output(s0, s1, k) == v8_legacy::rot12(
            lane_at(s0, v8_legacy::MULT0_3D, k as int) ^ lane_at(s1, v8_legacy::MULT1, k as int),
        ),
{
    lemma_lane_iter_fiter(s0, v8_legacy::MULT0_3D, k);
    lemma_lane_iter_fiter(s1, v8_legacy::MULT1, k);
}

/// Rewinding `n` exact Stage A lane steps and reading output `i` gives
/// position `i - n`.
proof fn lemma_bwd_stage_a(s0: u32, s1: u32, n: nat, i: nat)
    requires
        i < n,
        lane_rewind_exact(s0, v8_legacy::MULT0_3D, n),
        lane_rewind_exact(s1, v8_legacy::MULT1, n),
    ensures
        v8_legacy::stage_a_output(
            fiter(lane_bwd(v8_legacy::MULT0_3D), s0, n),
            fiter(lane_bwd(v8_legacy::MULT1), s1, n),
            i,
        ) == v8_legacy::rot12(
            lane_at(s0, v8_legacy::MULT0_3D, i - n) ^ lane_at(s1, v8_legacy::MULT1, i - n),
        ),
{
    let a = fiter(lane_bwd(v8_legacy::MULT0_3D), s0, n);
    let b = fiter(lane_bwd(v8_legacy::MULT1), s1, n);
    lemma_lane_iter_fiter(a, v8_legacy::MULT0_3D, i);
    lemma_lane_iter_fiter(b, v8_legacy::MULT1, i);
    lemma_fiter_back(lane_fwd(v8_legacy::MULT0_3D), lane_bwd(v8_legacy::MULT0_3D), s0, n, i);
    lemma_fiter_back(lane_fwd(v8_legacy::MULT1), lane_bwd(v8_legacy::MULT1), s1, n, i);
}

/// The generator rewound `n` steps of each lane.
pub open spec fn mwc_rewound(m: v8_legacy::Mwc, n: nat) -> v8_legacy::Mwc {
    v8_legacy::Mwc {
        s0: fiter(lane_bwd(m.mult0), m.s0, n),
        s1: fiter(lane_bwd(m.mult1), m.s1, n),
        ..m
    }
}

/// Rewinding `n` exact lane steps and reading output `i` gives position `i - n`.
proof fn lemma_bwd_mwc(m: v8_legacy::Mwc, n: nat, i: nat)
    requires
        i < n,
        lane_rewind_exact(m.s0, m.mult0, n),
        lane_rewind_exact(m.s1, m.mult1, n),
    ensures
        v8_legacy::mwc_output(mwc_rewound(m, n), i) == v8_legacy::fold(
            lane_at(m.s0, m.mult0, i - n),
            lane_at(m.s1, m.mult1, i - n),
            m.combine,
        ),
{
    let a = fiter(lane_bwd(m.mult0), m.s0, n);
    let b = fiter(lane_bwd(m.mult1), m.s1, n);
    lemma_lane_iter_fiter(a, m.mult0, i);
    lemma_lane_iter_fiter(b, m.mult1, i);
    lemma_fiter_back(lane_fwd(m.mult0), lane_bwd(m.mult0), m.s0, n, i);
    lemma_fiter_back(lane_fwd(m.mult1), lane_bwd(m.mult1), m.s1, n, i);
}

/// GameRand's stream read at position `k`.
proof fn lemma_fwd_gr(g: GameRand, k: nat)
    ensures
        jsc::iter(g, k + 1) == gr_at(g, (k + 1) as int),
{
    lemma_gr_iter_fiter(g, k + 1);
}

/// Rewinding `n` GameRand advances and advancing `i + 1` lands at `i + 1 - n`.
proof fn lemma_bwd_gr(g: GameRand, n: nat, i: nat)
    requires
        i < n,
    ensures
        jsc::iter(fiter(gr_bwd(), g, n), i + 1) == gr_at(g, i + 1 - n),
{
    let y = fiter(gr_bwd(), g, n);
    lemma_gr_iter_fiter(y, i + 1);
    lemma_gr_chain(g, n);
    lemma_fiter_back(gr_fwd(), gr_bwd(), g, n, i + 1);
}


// ---- the predictor -----------------------------------------------------------

/// The first `k` entries of `v` from index `start` on.
fn tail(v: &Vec<u64>, start: usize, k: usize) -> (r: Vec<u64>)
    requires
        start + k <= v.len(),
    ensures
        r@ == v@.subrange(start as int, (start + k) as int),
{
    let mut r: Vec<u64> = Vec::new();
    let mut i: usize = 0;
    while i < k
        invariant
            i <= k,
            start + k <= v.len(),
            r@ == v@.subrange(start as int, (start + i) as int),
        decreases k - i,
    {
        r.push(v[start + i]);
        i = i + 1;
        proof {
            assert(r@ =~= v@.subrange(start as int, (start + i) as int));
        }
    }
    r
}

/// The entries of `v` from index `start` on, widened to 64 bits.
fn tail32(v: &Vec<u32>, start: usize, k: usize) -> (r: Vec<u64>)
    requires
        start + k <= v.len(),
    ensures
        r.len() == k,
        forall|i: int| 0 <= i < k ==> r@[i] == v@[start + i] as u64,
{
    let mut r: Vec<u64> = Vec::new();
    let mut i: usize = 0;
    while i < k
        invariant
            i <= k,
            start + k <= v.len(),
            r.len() == i,
            forall|j: int| 0 <= j < i ==> r@[j] == v@[start + j] as u64,
        decreases k - i,
    {
        r.push(v[start + i] as u64);
        i = i + 1;
    }
    r
}

impl Predictor {
    #[verifier::type_invariant]
    spec fn wf(self) -> bool {
        match self.gen {
            Gen::V8Modern { offset, .. } => offset < 64,
            Gen::V8Wide { offset, .. } => offset < 64,
            Gen::V8Rev5x { offset, .. } => offset < 62,
            Gen::Drand48Sm(s) => s <= sml::MASK,
            Gen::Drand48Ie(s) => s <= sml::MASK,
            Gen::HermesLcg(s) => 0 < s < hermes::M,
            Gen::Mwc(m) => v8_legacy::shipped(m),
            _ => true,
        }
    }

    /// What the predictor was identified as.
    pub closed spec fn id_spec(self) -> Identification {
        self.id
    }

    /// How many values the capture had.
    pub closed spec fn observed_len(self) -> nat {
        self.observed as nat
    }

    /// The numerator the generator emits at position `p` of its stream, where
    /// position 0 is the first observed value (negative positions come before
    /// the capture).
    pub closed spec fn value_at(self, p: int) -> u64 {
        match self.gen {
            Gen::V8Modern { seed, offset } => served_value(seed, 64, Conv::High52, offset + p),
            Gen::V8Wide { seed, offset } => served_value(seed, 64, Conv::High53, offset + p),
            Gen::V8Rev5x { seed, offset } => served_value(seed, 62, Conv::SumLow52, offset + p),
            Gen::V8StageB { seed } => v8::sum_low52(xs_at(seed, p + 1)),
            Gen::SmModern(seed) => spidermonkey::low53(
                xs_at(seed, p + 1).s0.wrapping_add(xs_at(seed, p + 1).s1),
            ),
            Gen::Drand48Sm(seed) => sml::output(d48_at(seed, 2 * p), 0),
            Gen::Drand48Ie(seed) => jscript::output(d48_at(seed, 2 * p), 0),
            Gen::Libc(st) => v8_libc::output(libc_at(st, 2 * p), 0),
            Gen::Mwc(m) => v8_legacy::fold(lane_at(m.s0, m.mult0, p), lane_at(m.s1, m.mult1, p), m.combine),
            Gen::MwcStageA { s0, s1 } => v8_legacy::rot12(
                lane_at(s0, v8_legacy::MULT0_3D, p) ^ lane_at(s1, v8_legacy::MULT1, p),
            ),
            Gen::GameRand(g) => gr_at(g, p + 1).high as u64,
            Gen::Dart(st) => dart::output(dart_at(st, 2 * p), 0),
            Gen::HermesLcg(st) => hermes::output(hermes_at(st, 2 * p), 0),
        }
    }

    /// The largest numerator difference that the engine's reproduction check
    /// accepts.
    pub closed spec fn tol(self) -> u64 {
        match self.gen {
            Gen::V8Modern { .. } => v8::TOL,
            Gen::V8Wide { .. } => v8::TOL_53,
            Gen::V8Rev5x { .. } => v8::TOL,
            Gen::V8StageB { .. } => v8::TOL,
            Gen::SmModern(_) => spidermonkey::TOL,
            Gen::Drand48Sm(_) => sml::TOL,
            Gen::Drand48Ie(_) => jscript::TOL,
            Gen::Dart(_) => dart::TOL,
            Gen::HermesLcg(_) => hermes::TOL,
            _ => 0,
        }
    }

    /// The generator reproduces the capture `obs` at positions `0..obs.len()`.
    pub closed spec fn reproduces(self, obs: Seq<u64>) -> bool {
        &&& self.observed == obs.len()
        &&& forall|i: int| 0 <= i < obs.len() ==> close(#[trigger] self.value_at(i), obs[i], self.tol())
    }

    /// Rewinding `n` values is exact: true of every generator but MWC, whose
    /// step is not one-to-one, and Dart, whose step does not reach every
    /// 64-bit state; of MWC when each lane's steps back do step forward onto
    /// the states they came from, and of Dart when every state met going back
    /// is one a step can produce.
    pub closed spec fn rewind_exact(self, n: nat) -> bool {
        match self.gen {
            Gen::Mwc(m) => lane_rewind_exact(m.s0, m.mult0, n) && lane_rewind_exact(m.s1, m.mult1, n),
            Gen::MwcStageA { s0, s1 } => lane_rewind_exact(s0, v8_legacy::MULT0_3D, n) && lane_rewind_exact(
                s1,
                v8_legacy::MULT1,
                n,
            ),
            Gen::Dart(st) => dart_rewind_exact(st, n),
            _ => true,
        }
    }

    /// The `n` values generated from the state rewound `n` values.
    pub closed spec fn past(self, n: nat) -> Seq<u64> {
        match self.gen {
            Gen::Mwc(m) => v8_legacy::mwc_outputs(mwc_rewound(m, n), n),
            Gen::MwcStageA { s0, s1 } => v8_legacy::stage_a_outputs(
                fiter(lane_bwd(v8_legacy::MULT0_3D), s0, n),
                fiter(lane_bwd(v8_legacy::MULT1), s1, n),
                n,
            ),
            Gen::Dart(st) => dart::outputs(fiter(dart_bwd(), st, 2 * n), n),
            _ => Seq::new(n, |i: int| self.value_at(i - n)),
        }
    }

    /// When rewinding `k` values is exact, the `k` values generated from the
    /// rewound state are the stream's values just before the capture.
    pub proof fn lemma_past_exact(self, k: nat)
        requires
            self.rewind_exact(k),
        ensures
            self.past(k) == Seq::new(k, |i: int| self.value_at(i - k)),
    {
        let want = Seq::new(k, |i: int| self.value_at(i - k));
        match self.gen {
            Gen::Mwc(m) => {
                assert forall|i: int| 0 <= i < k implies self.past(k)[i] == want[i] by {
                    lemma_bwd_mwc(m, k, i as nat);
                }
            },
            Gen::MwcStageA { s0, s1 } => {
                assert forall|i: int| 0 <= i < k implies self.past(k)[i] == want[i] by {
                    lemma_bwd_stage_a(s0, s1, k, i as nat);
                }
            },
            Gen::Dart(st) => {
                assert forall|i: int| 0 <= i < k implies self.past(k)[i] == want[i] by {
                    lemma_bwd_dart(st, k, i as nat);
                }
            },
            _ => {},
        }
        assert(self.past(k) =~= want);
    }

    /// Stepping back fewer values gives the end of stepping back more: the
    /// last of the `n` values before the capture is always the one served just
    /// before it, whenever rewinding the `m` values is exact.
    pub proof fn lemma_backward_suffix(self, n: nat, m: nat)
        requires
            n <= m,
            self.rewind_exact(m),
        ensures
            self.past(n) == self.past(m).subrange(m - n, m as int),
    {
        assert(self.rewind_exact(n));
        self.lemma_past_exact(n);
        self.lemma_past_exact(m);
        assert(self.past(n) =~= self.past(m).subrange(m - n, m as int));
    }

    pub fn id(&self) -> (r: &Identification)
        ensures
            *r == self.id_spec(),
    {
        &self.id
    }

    /// The next `n` `Math.random()` numerators (those that come after the
    /// capture).
    pub fn forward(&self, n: usize) -> (r: Vec<u64>)
        requires
            self.observed_len() + n + 64 <= usize::MAX,
        ensures
            r@ == Seq::new(n as nat, |i: int| self.value_at(self.observed_len() + i)),
    {
        proof {
            use_type_invariant(self);
        }
        let o = self.observed;
        let ghost want = Seq::new(n as nat, |i: int| self.value_at(self.observed_len() + i));
        match &self.gen {
            Gen::V8Modern { seed, offset } => {
                let full = v8::generate(*seed, offset + o + n);
                let r = tail(&full, offset + o, n);
                proof {
                    assert forall|i: int| 0 <= i < n implies r@[i] == want[i] by {
                        lemma_fwd_v8(*seed, (offset + o + n) as nat, offset + o + i);
                    }
                    assert(r@ =~= want);
                }
                r
            },
            Gen::V8Wide { seed, offset } => {
                let full = v8::generate_53(*seed, offset + o + n);
                let r = tail(&full, offset + o, n);
                proof {
                    assert forall|i: int| 0 <= i < n implies r@[i] == want[i] by {
                        lemma_fwd_v8(*seed, (offset + o + n) as nat, offset + o + i);
                    }
                    assert(r@ =~= want);
                }
                r
            },
            Gen::V8Rev5x { seed, offset } => {
                let full = v8::generate_5x(*seed, offset + o + n);
                let r = tail(&full, offset + o, n);
                proof {
                    assert forall|i: int| 0 <= i < n implies r@[i] == want[i] by {
                        lemma_fwd_v8(*seed, (offset + o + n) as nat, offset + o + i);
                    }
                    assert(r@ =~= want);
                }
                r
            },
            Gen::V8StageB { seed } => {
                let full = v8::generate_early(*seed, o + n);
                let r = tail(&full, o, n);
                proof {
                    assert forall|i: int| 0 <= i < n implies r@[i] == want[i] by {
                        lemma_fwd_xs(*seed, (o + i) as nat);
                    }
                    assert(r@ =~= want);
                }
                r
            },
            Gen::SmModern(seed) => {
                let full = spidermonkey::generate(*seed, o + n);
                let r = tail(&full, o, n);
                proof {
                    assert forall|i: int| 0 <= i < n implies r@[i] == want[i] by {
                        lemma_fwd_xs(*seed, (o + i) as nat);
                    }
                    assert(r@ =~= want);
                }
                r
            },
            Gen::Drand48Sm(seed) => {
                let full = sml::generate(*seed, o + n);
                let r = tail(&full, o, n);
                proof {
                    assert forall|i: int| 0 <= i < n implies r@[i] == want[i] by {
                        lemma_fwd_d48(*seed, (o + i) as nat);
                    }
                    assert(r@ =~= want);
                }
                r
            },
            Gen::Drand48Ie(seed) => {
                let full = jscript::generate(*seed, o + n);
                let r = tail(&full, o, n);
                proof {
                    assert forall|i: int| 0 <= i < n implies r@[i] == want[i] by {
                        lemma_fwd_d48(*seed, (o + i) as nat);
                    }
                    assert(r@ =~= want);
                }
                r
            },
            Gen::Libc(st) => {
                let full = v8_libc::generate(*st, o + n);
                let r = tail(&full, o, n);
                proof {
                    assert forall|i: int| 0 <= i < n implies r@[i] == want[i] by {
                        lemma_fwd_libc(*st, (o + i) as nat);
                    }
                    assert(r@ =~= want);
                }
                r
            },
            Gen::Mwc(m) => {
                let full = m.generate(o + n);
                let r = tail(&full, o, n);
                proof {
                    assert forall|i: int| 0 <= i < n implies r@[i] == want[i] by {
                        lemma_fwd_mwc(*m, (o + i) as nat);
                    }
                    assert(r@ =~= want);
                }
                r
            },
            Gen::MwcStageA { s0, s1 } => {
                let full = v8_legacy::generate_stage_a(*s0, *s1, o + n);
                let r = tail(&full, o, n);
                proof {
                    assert forall|i: int| 0 <= i < n implies r@[i] == want[i] by {
                        lemma_fwd_stage_a(*s0, *s1, (o + i) as nat);
                    }
                    assert(r@ =~= want);
                }
                r
            },
            Gen::GameRand(g) => {
                let full = jsc::generate(*g, o + n);
                let r = tail32(&full, o, n);
                proof {
                    assert forall|i: int| 0 <= i < n implies r@[i] == want[i] by {
                        lemma_fwd_gr(*g, (o + i) as nat);
                    }
                    assert(r@ =~= want);
                }
                r
            },
            Gen::Dart(st) => {
                let full = dart::generate(*st, o + n);
                let r = tail(&full, o, n);
                proof {
                    assert forall|i: int| 0 <= i < n implies r@[i] == want[i] by {
                        lemma_fwd_dart(*st, (o + i) as nat);
                    }
                    assert(r@ =~= want);
                }
                r
            },
            Gen::HermesLcg(st) => {
                let full = hermes::generate(*st, o + n);
                let r = tail(&full, o, n);
                proof {
                    assert forall|i: int| 0 <= i < n implies r@[i] == want[i] by {
                        lemma_fwd_hermes(*st, (o + i) as nat);
                    }
                    assert(r@ =~= want);
                }
                r
            },
        }
    }

    /// The `n` values immediately before the capture, chronological order (so
    /// the last element is the one right before the first observed value). For
    /// V8's cache models this walks back across batch boundaries; for the others
    /// it rewinds the recurrence (valid back to the realm's seed).
    pub fn backward(&self, n: usize) -> (r: Vec<u64>)
        requires
            n <= 0x100_0000_0000,
        ensures
            r@ == self.past(n as nat),
            self.rewind_exact(n as nat) ==> r@ == Seq::new(n as nat, |i: int| self.value_at(i - n)),
    {
        proof {
            use_type_invariant(self);
        }
        let ghost want = Seq::new(n as nat, |i: int| self.value_at(i - n));
        match &self.gen {
            // V8 cache models: served-index walk handles crossing batch
            // boundaries backward (earlier batches via stepping the state back).
            Gen::V8Modern { seed, offset } => {
                let mut r: Vec<u64> = Vec::new();
                let mut i: usize = 0;
                while i < n
                    invariant
                        i <= n,
                        n <= 0x100_0000_0000,
                        *offset < 64,
                        self.gen == (Gen::V8Modern { seed: *seed, offset: *offset }),
                        want == Seq::new(n as nat, |i: int| self.value_at(i - n)),
                        r@ == want.subrange(0, i as int),
                    decreases n - i,
                {
                    let s = (*offset as i64) - (n as i64) + (i as i64);
                    r.push(v8_served(*seed, 64, Conv::High52, s));
                    i = i + 1;
                    proof {
                        assert(r@ =~= want.subrange(0, i as int));
                    }
                }
                r
            },
            Gen::V8Wide { seed, offset } => {
                let mut r: Vec<u64> = Vec::new();
                let mut i: usize = 0;
                while i < n
                    invariant
                        i <= n,
                        n <= 0x100_0000_0000,
                        *offset < 64,
                        self.gen == (Gen::V8Wide { seed: *seed, offset: *offset }),
                        want == Seq::new(n as nat, |i: int| self.value_at(i - n)),
                        r@ == want.subrange(0, i as int),
                    decreases n - i,
                {
                    let s = (*offset as i64) - (n as i64) + (i as i64);
                    r.push(v8_served(*seed, 64, Conv::High53, s));
                    i = i + 1;
                    proof {
                        assert(r@ =~= want.subrange(0, i as int));
                    }
                }
                r
            },
            Gen::V8Rev5x { seed, offset } => {
                let mut r: Vec<u64> = Vec::new();
                let mut i: usize = 0;
                while i < n
                    invariant
                        i <= n,
                        n <= 0x100_0000_0000,
                        *offset < 62,
                        self.gen == (Gen::V8Rev5x { seed: *seed, offset: *offset }),
                        want == Seq::new(n as nat, |i: int| self.value_at(i - n)),
                        r@ == want.subrange(0, i as int),
                    decreases n - i,
                {
                    let s = (*offset as i64) - (n as i64) + (i as i64);
                    r.push(v8_served(*seed, 62, Conv::SumLow52, s));
                    i = i + 1;
                    proof {
                        assert(r@ =~= want.subrange(0, i as int));
                    }
                }
                r
            },
            // Contiguous models: rewind the anchor n outputs, then generate forward.
            Gen::V8StageB { seed } => {
                let mut s = *seed;
                let mut k: usize = 0;
                while k < n
                    invariant
                        k <= n,
                        s == fiter(xs_bwd(), *seed, k as nat),
                    decreases n - k,
                {
                    s.prev_state();
                    k = k + 1;
                }
                let r = v8::generate_early(s, n);
                proof {
                    assert forall|i: int| 0 <= i < n implies r@[i] == want[i] by {
                        lemma_bwd_xs(*seed, n as nat, i as nat);
                    }
                    assert(r@ =~= want);
                }
                r
            },
            Gen::SmModern(seed) => {
                let mut s = *seed;
                let mut k: usize = 0;
                while k < n
                    invariant
                        k <= n,
                        s == fiter(xs_bwd(), *seed, k as nat),
                    decreases n - k,
                {
                    s.prev_state();
                    k = k + 1;
                }
                let r = spidermonkey::generate(s, n);
                proof {
                    assert forall|i: int| 0 <= i < n implies r@[i] == want[i] by {
                        lemma_bwd_xs(*seed, n as nat, i as nat);
                    }
                    assert(r@ =~= want);
                }
                r
            },
            Gen::Drand48Sm(seed) => {
                let mut s = *seed;
                let mut k: usize = 0;
                while k < n
                    invariant
                        k <= n,
                        *seed <= sml::MASK,
                        s == fiter(d48_bwd(), *seed, (2 * k) as nat),
                        s <= sml::MASK,
                    decreases n - k,
                {
                    proof {
                        lemma_d48_chain(*seed, 0);
                        assert(fiter(d48_bwd(), *seed, (2 * k + 1) as nat) <= sml::MASK);
                    }
                    s = d48_prev(s);
                    s = d48_prev(s);
                    k = k + 1;
                }
                let r = sml::generate(s, n);
                proof {
                    assert forall|i: int| 0 <= i < n implies r@[i] == want[i] by {
                        lemma_bwd_d48(*seed, n as nat, i as nat);
                    }
                    assert(r@ =~= want);
                }
                r
            },
            Gen::Drand48Ie(seed) => {
                let mut s = *seed;
                let mut k: usize = 0;
                while k < n
                    invariant
                        k <= n,
                        *seed <= sml::MASK,
                        s == fiter(d48_bwd(), *seed, (2 * k) as nat),
                        s <= sml::MASK,
                    decreases n - k,
                {
                    proof {
                        lemma_d48_chain(*seed, 0);
                        assert(fiter(d48_bwd(), *seed, (2 * k + 1) as nat) <= sml::MASK);
                    }
                    s = d48_prev(s);
                    s = d48_prev(s);
                    k = k + 1;
                }
                let r = jscript::generate(s, n);
                proof {
                    assert forall|i: int| 0 <= i < n implies r@[i] == want[i] by {
                        lemma_bwd_d48(*seed, n as nat, i as nat);
                    }
                    assert(r@ =~= want);
                }
                r
            },
            Gen::Libc(st) => {
                let mut s = *st;
                let mut k: usize = 0;
                while k < n
                    invariant
                        k <= n,
                        s == fiter(libc_bwd(), *st, (2 * k) as nat),
                    decreases n - k,
                {
                    s = libc_prev(s);
                    assert(s == fiter(libc_bwd(), *st, (2 * k + 1) as nat));
                    s = libc_prev(s);
                    k = k + 1;
                }
                let r = v8_libc::generate(s, n);
                proof {
                    assert forall|i: int| 0 <= i < n implies r@[i] == want[i] by {
                        lemma_bwd_libc(*st, n as nat, i as nat);
                    }
                    assert(r@ =~= want);
                }
                r
            },
            Gen::Mwc(m) => {
                let mut a = m.s0;
                let mut b = m.s1;
                let mut k: usize = 0;
                while k < n
                    invariant
                        k <= n,
                        v8_legacy::shipped(*m),
                        a == fiter(lane_bwd(m.mult0), m.s0, k as nat),
                        b == fiter(lane_bwd(m.mult1), m.s1, k as nat),
                    decreases n - k,
                {
                    a = mwc_lane_prev(a, m.mult0);
                    b = mwc_lane_prev(b, m.mult1);
                    k = k + 1;
                }
                let back = v8_legacy::Mwc { s0: a, s1: b, ..*m };
                assert(back == mwc_rewound(*m, n as nat));
                let r = back.generate(n);
                proof {
                    if self.rewind_exact(n as nat) {
                        assert forall|i: int| 0 <= i < n implies r@[i] == want[i] by {
                            lemma_bwd_mwc(*m, n as nat, i as nat);
                        }
                        assert(r@ =~= want);
                    }
                }
                r
            },
            Gen::MwcStageA { s0, s1 } => {
                let mut a = *s0;
                let mut b = *s1;
                let mut k: usize = 0;
                while k < n
                    invariant
                        k <= n,
                        a == fiter(lane_bwd(v8_legacy::MULT0_3D), *s0, k as nat),
                        b == fiter(lane_bwd(v8_legacy::MULT1), *s1, k as nat),
                    decreases n - k,
                {
                    a = mwc_lane_prev(a, v8_legacy::MULT0_3D);
                    b = mwc_lane_prev(b, v8_legacy::MULT1);
                    k = k + 1;
                }
                let r = v8_legacy::generate_stage_a(a, b, n);
                proof {
                    if self.rewind_exact(n as nat) {
                        assert forall|i: int| 0 <= i < n implies r@[i] == want[i] by {
                            lemma_bwd_stage_a(*s0, *s1, n as nat, i as nat);
                        }
                        assert(r@ =~= want);
                    }
                }
                r
            },
            Gen::GameRand(g) => {
                let mut s = *g;
                let mut k: usize = 0;
                while k < n
                    invariant
                        k <= n,
                        s == fiter(gr_bwd(), *g, k as nat),
                    decreases n - k,
                {
                    s = gamerand_back(s);
                    k = k + 1;
                }
                let full = jsc::generate(s, n);
                let r = tail32(&full, 0, n);
                proof {
                    assert forall|i: int| 0 <= i < n implies r@[i] == want[i] by {
                        lemma_bwd_gr(*g, n as nat, i as nat);
                    }
                    assert(r@ =~= want);
                }
                r
            },
            Gen::Dart(st) => {
                let mut s = *st;
                let mut k: usize = 0;
                while k < n
                    invariant
                        k <= n,
                        s == fiter(dart_bwd(), *st, (2 * k) as nat),
                    decreases n - k,
                {
                    s = dart::prev_state(s);
                    assert(s == fiter(dart_bwd(), *st, (2 * k + 1) as nat));
                    s = dart::prev_state(s);
                    k = k + 1;
                }
                let r = dart::generate(s, n);
                proof {
                    if self.rewind_exact(n as nat) {
                        assert forall|i: int| 0 <= i < n implies r@[i] == want[i] by {
                            lemma_bwd_dart(*st, n as nat, i as nat);
                        }
                        assert(r@ =~= want);
                    }
                }
                r
            },
            Gen::HermesLcg(st) => {
                let inv = hermes::a_inv();
                let mut s = *st;
                let mut k: usize = 0;
                proof {
                    lemma_hermes_chain(*st, (2 * n) as nat);
                }
                while k < n
                    invariant
                        k <= n,
                        inv == hermes::A_INV,
                        0 < *st < hermes::M,
                        s == fiter(hermes_bwd(), *st, (2 * k) as nat),
                        forall|m: nat| 0 < #[trigger] fiter(hermes_bwd(), *st, m) < hermes::M,
                    decreases n - k,
                {
                    s = hermes_prev(s, inv);
                    assert(s == fiter(hermes_bwd(), *st, (2 * k + 1) as nat));
                    s = hermes_prev(s, inv);
                    k = k + 1;
                }
                assert(0 < s < hermes::M);
                let r = hermes::generate(s, n);
                proof {
                    assert forall|i: int| 0 <= i < n implies r@[i] == want[i] by {
                        lemma_bwd_hermes(*st, n as nat, i as nat);
                    }
                    assert(r@ =~= want);
                }
                r
            },
        }
    }
}


// ---- recovery ----------------------------------------------------------------

/// The identification of a predictable generator.
pub fn id(
    engine: &'static str,
    algorithm: &'static str,
    browsers: &'static str,
    grid: u32,
    time: &'static str,
) -> (r: Identification)
    ensures
        r == (Identification {
            engine,
            algorithm,
            browsers,
            grid_bits: grid,
            time_seeded: time,
            predictable: true,
        }),
{
    Identification { engine, algorithm, browsers, grid_bits: grid, time_seeded: time, predictable: true }
}

// ---- identifications --------------------------------------------------------

/// The identification of the libc `rand()` pair of the first V8 (Chrome 1).
pub open spec fn ident_libc() -> Identification {
    Identification {
        engine: "V8",
        algorithm: "libc rand()×2 (srand(time))",
        browsers: "Chrome 1",
        grid_bits: 30,
        time_seeded: "yes — wall-clock ms",
        predictable: true,
    }
}

/// The identification of V8's MWC1616 lanes folded by a 14-bit shift.
pub open spec fn ident_mwc14() -> Identification {
    Identification {
        engine: "V8",
        algorithm: "MWC1616 era 1 (<<14)",
        browsers: "Chrome 10–46, Opera 16–22",
        grid_bits: 32,
        time_seeded: "in-browser CSPRNG (≥Chrome 15)",
        predictable: true,
    }
}

/// The identification of V8's MWC1616 lanes folded by a 16-bit shift.
pub open spec fn ident_mwc() -> Identification {
    Identification {
        engine: "V8",
        algorithm: "MWC1616 era 2/3 (<<16)",
        browsers: "Chrome 10–46, Opera 16–22",
        grid_bits: 32,
        time_seeded: "in-browser CSPRNG (≥Chrome 15)",
        predictable: true,
    }
}

/// The identification of JavaScriptCore's GameRand.
pub open spec fn ident_gamerand() -> Identification {
    Identification {
        engine: "JavaScriptCore",
        algorithm: "GameRand (32-bit seed)",
        browsers: "Safari ≤8, iOS",
        grid_bits: 32,
        time_seeded: "no — crypto, but 32-bit",
        predictable: true,
    }
}

/// The identification of modern V8 (reversed 64-value cache, `s0 >> 12`).
pub open spec fn ident_v8_modern() -> Identification {
    Identification {
        engine: "V8",
        algorithm: "xorshift128+ (s0>>12, reversed cache)",
        browsers: "Chrome 70+, Edge, Brave, Vivaldi, Opera",
        grid_bits: 52,
        time_seeded: "no — OS CSPRNG",
        predictable: true,
    }
}

/// The identification of V8 13.5+ (reversed 64-value cache, `s0 >> 11` over
/// 2^53).
pub open spec fn ident_v8_wide() -> Identification {
    Identification {
        engine: "V8",
        algorithm: "xorshift128+ (s0>>11, reversed cache, 2⁻⁵³)",
        browsers: "Chrome 135–143",
        grid_bits: 53,
        time_seeded: "no — OS CSPRNG",
        predictable: true,
    }
}

/// The identification of V8 4.9 Stage B (in order, `(s0+s1) & mask52`).
pub open spec fn ident_stage_b() -> Identification {
    Identification {
        engine: "V8",
        algorithm: "xorshift128+ in-order ((s0+s1)&mask52, 4.9 Stage B)",
        browsers: "Chrome 49–50",
        grid_bits: 52,
        time_seeded: "no — OS CSPRNG",
        predictable: true,
    }
}

/// The identification of V8 5.1–5.3 (reversed 62-value batches).
pub open spec fn ident_rev5x() -> Identification {
    Identification {
        engine: "V8",
        algorithm: "xorshift128+ reversed-62 ((s0+s1)&mask52, V8 5.1–5.3)",
        browsers: "Chrome 52–53, Opera 38–40",
        grid_bits: 52,
        time_seeded: "no — OS CSPRNG",
        predictable: true,
    }
}

/// The identification of old SpiderMonkey's drand48.
pub open spec fn ident_drand48_sm() -> Identification {
    Identification {
        engine: "SpiderMonkey",
        algorithm: "drand48 48-bit LCG (26+27)",
        browsers: "Firefox ≤48",
        grid_bits: 53,
        time_seeded: "yes if ≤FF23, else CSPRNG",
        predictable: true,
    }
}

/// The identification of modern SpiderMonkey's xorshift128+.
pub open spec fn ident_sm_modern() -> Identification {
    Identification {
        engine: "SpiderMonkey",
        algorithm: "xorshift128+ ((s0+s1) low 53)",
        browsers: "Firefox 49+, Pale Moon",
        grid_bits: 53,
        time_seeded: "no — OS CSPRNG",
        predictable: true,
    }
}

/// The identification of JScript and Chakra's drand48.
pub open spec fn ident_drand48_ie() -> Identification {
    Identification {
        engine: "JScript/Chakra",
        algorithm: "drand48 48-bit LCG (27+27 → 2⁻⁵⁴)",
        browsers: "Internet Explorer 6–11",
        grid_bits: 54,
        time_seeded: "yes — RDTSC timer",
        predictable: true,
    }
}

/// The identification of Dart's multiply-with-carry (Flutter apps).
pub open spec fn ident_dart() -> Identification {
    Identification {
        engine: "Dart",
        algorithm: "MWC, A = 0xffffda61 (26+27 bits)",
        browsers: "Flutter apps (VM/AOT, wasm, seeded web)",
        grid_bits: 53,
        time_seeded: "no — entropy source (µs-time fallback)",
        predictable: true,
    }
}

/// The identification of Hermes' first era (React Native), whose grid
/// `1/R²` is not a power of two: grid 0.
pub open spec fn ident_hermes() -> Identification {
    Identification {
        engine: "Hermes",
        algorithm: "std::minstd_rand ×2 (generate_canonical)",
        browsers: "React Native (Hermes era 1)",
        grid_bits: 0,
        time_seeded: "no — 32-bit random_device",
        predictable: true,
    }
}

/// The identification of V8 4.9-dev's Stage A MWC.
pub open spec fn ident_stage_a() -> Identification {
    Identification {
        engine: "V8",
        algorithm: "MWC + %_ConstructDouble (4.9 Stage A)",
        browsers: "Chrome 48",
        grid_bits: 32,
        time_seeded: "CSPRNG",
        predictable: true,
    }
}

/// What a recovery without a solver can identify a capture on grid `2^-grid`
/// (grid 0: Hermes' non-dyadic `1/R²`) as.
pub open spec fn recovered_as(i: Identification, grid: u32) -> bool {
    ||| grid == 0 && i == ident_hermes()
    ||| grid == 30 && i == ident_libc()
    ||| grid == 32 && (i == ident_mwc() || i == ident_mwc14() || i == ident_gamerand())
    ||| grid == 52 && i == ident_v8_modern()
    ||| grid == 53 && (i == ident_drand48_sm() || i == ident_dart() || i == ident_v8_wide())
    ||| grid == 54 && i == ident_drand48_ie()
}

/// What a solver's answer to a stage's question identifies a capture as.
pub open spec fn solved_as(stage: Stage) -> Identification {
    match stage {
        Stage::Early => ident_stage_b(),
        Stage::Rev5x(_) => ident_rev5x(),
        Stage::SpiderMonkey => ident_sm_modern(),
        Stage::StageA => ident_stage_a(),
    }
}

/// The capture as 32-bit numerators, when every value fits.
fn narrow(obs: &[u64]) -> (r: Option<Vec<u32>>)
    ensures
        r is Some <==> forall|i: int| 0 <= i < obs.len() ==> obs@[i] <= 0xffff_ffff,
        r matches Some(v) ==> v.len() == obs.len() && forall|i: int| 0 <= i < obs.len() ==> v@[i] as u64 == obs@[i],
{
    let mut v: Vec<u32> = Vec::new();
    let mut i: usize = 0;
    while i < obs.len()
        invariant
            i <= obs.len(),
            v.len() == i,
            forall|j: int| 0 <= j < i ==> v@[j] as u64 == obs@[j],
            forall|j: int| 0 <= j < i ==> obs@[j] <= 0xffff_ffff,
        decreases obs.len() - i,
    {
        if obs[i] > 0xffff_ffff {
            assert(!(obs@[i as int] <= 0xffff_ffff));
            return None;
        }
        v.push(obs[i] as u32);
        i = i + 1;
    }
    Some(v)
}

/// Recovery on the 2^-32 grid: a shipped MWC era first, then GameRand.
fn recover_32(obs: &[u64]) -> (r: Option<Predictor>)
    requires
        obs.len() + 64 <= usize::MAX,
    ensures
        r matches Some(p) ==> p.reproduces(obs@) && recovered_as(p.id_spec(), 32),
        obs.len() >= 3 && (exists|m: v8_legacy::Mwc|
            v8_legacy::shipped(m) && #[trigger] v8_legacy::mwc_outputs(m, obs.len() as nat) == obs@) ==> (r matches Some(
            p,
        ) && (p.id_spec() == ident_mwc() || p.id_spec() == ident_mwc14())),
        forall|g: GameRand|
            obs.len() >= 3 && (forall|i: int| 0 <= i < obs.len() ==> obs@[i] <= 0xffff_ffff)
                && #[trigger] jsc::outputs(g, obs.len() as nat) == Seq::new(obs.len() as nat, |i: int| obs@[i] as u32)
                && !(exists|m: v8_legacy::Mwc|
                v8_legacy::shipped(m) && #[trigger] v8_legacy::mwc_outputs(m, obs.len() as nat) == obs@) ==> (r matches Some(
                p,
            ) && p.id_spec() == ident_gamerand() && forall|i: int| #[trigger] p.value_at(i) == gr_at(g, i + 1).high as u64),
        r matches Some(p) ==> ((p.id_spec() == ident_mwc() || p.id_spec() == ident_mwc14()) ==> exists|m: v8_legacy::Mwc|
            v8_legacy::shipped(m) && #[trigger] v8_legacy::mwc_outputs(m, obs.len() as nat) == obs@ && (forall|i: int|
                #[trigger] p.value_at(i) == v8_legacy::fold(lane_at(m.s0, m.mult0, i), lane_at(m.s1, m.mult1, i), m.combine))
                && p.id_spec() == (if m.combine == v8_legacy::Combine::Shift14 {
                ident_mwc14()
            } else {
                ident_mwc()
            })),
{
    let n = obs.len();
    if let Some(m) = v8_legacy::recover_mwc(obs) {
        let alg = if m.combine == v8_legacy::Combine::Shift14 {
            "MWC1616 era 1 (<<14)"
        } else {
            "MWC1616 era 2/3 (<<16)"
        };
        let p = Predictor {
            id: id("V8", alg, "Chrome 10–46, Opera 16–22", 32, "in-browser CSPRNG (≥Chrome 15)"),
            gen: Gen::Mwc(m),
            observed: n,
        };
        proof {
            assert forall|i: int| 0 <= i < n implies close(#[trigger] p.value_at(i), obs@[i], p.tol()) by {
                lemma_fwd_mwc(m, i as nat);
                assert(obs@[i] == v8_legacy::mwc_outputs(m, n as nat)[i]);
            }
            assert(v8_legacy::shipped(m) && v8_legacy::mwc_outputs(m, obs.len() as nat) == obs@);
        }
        return Some(p);
    }
    let ghost wide = Seq::new(obs.len() as nat, |i: int| obs@[i] as u32);
    if let Some(obs32) = narrow(obs) {
        proof {
            assert(obs32@ =~= wide);
        }
        if let Some(st) = jsc::recover(obs32.as_slice()) {
            let p = Predictor {
                id: id("JavaScriptCore", "GameRand (32-bit seed)", "Safari ≤8, iOS", 32, "no — crypto, but 32-bit"),
                gen: Gen::GameRand(st),
                observed: n,
            };
            proof {
                assert forall|i: int| 0 <= i < n implies close(#[trigger] p.value_at(i), obs@[i], p.tol()) by {
                    lemma_fwd_gr(st, i as nat);
                    assert(obs32@[i] == jsc::outputs(st, n as nat)[i]);
                }
            }
            return Some(p);
        }
    }
    None
}

/// Recovery on the 2^-53 grid: old SpiderMonkey first, then Dart, then V8
/// 13.5+.
fn recover_53(obs: &[u64]) -> (r: Option<Predictor>)
    requires
        obs.len() + 64 <= usize::MAX,
    ensures
        r matches Some(p) ==> p.reproduces(obs@) && recovered_as(p.id_spec(), 53),
        obs.len() >= 2 && (exists|st: u64| sml::outputs(st, obs.len() as nat) == obs@) ==> r is Some,
        obs.len() >= 3 && (exists|st: u64| dart::outputs(st, obs.len() as nat) == obs@) ==> r is Some,
        obs.len() >= 8 && (exists|s: XorShift128Plus, o: nat|
            v8::serves_with(s, o, obs@, 11) && #[trigger] v8::determined_with(s, o, obs@, 11)) ==> r is Some,
        forall|st: u64|
            obs.len() >= 2 && sml::outputs(st, obs.len() as nat) == obs@ && #[trigger] sml::pinned(st, obs@)
                ==> (r matches Some(p) && p.id_spec() == ident_drand48_sm() && forall|i: int| #[trigger] p.value_at(i)
                == sml::output(d48_at(st, 2 * i), 0)),
        forall|st: u64|
            obs.len() >= 3 && dart::outputs(st, obs.len() as nat) == obs@ && #[trigger] dart::pinned(st, obs@)
                && !(exists|t: u64| t <= sml::MASK && #[trigger] all_close(sml::outputs(t, obs.len() as nat), obs@, sml::TOL))
                ==> (r matches Some(p) && p.id_spec() == ident_dart() && forall|i: int| #[trigger] p.value_at(i)
                == dart::output(dart_at(st, 2 * i), 0)),
        forall|s: XorShift128Plus, o: nat|
            obs.len() >= 8 && v8::serves_with(s, o, obs@, 11) && v8::determined_with(s, o, obs@, 11)
                && #[trigger] v8::pinned_53(s, o, obs@) && !(exists|t: u64|
                t <= sml::MASK && #[trigger] all_close(sml::outputs(t, obs.len() as nat), obs@, sml::TOL)) && !(exists|
                t: u64,
            | #[trigger] all_close(dart::outputs(t, obs.len() as nat), obs@, dart::TOL)) ==> (r matches Some(p)
                && p.id_spec() == ident_v8_wide() && forall|i: int| #[trigger] p.value_at(i) == served_value(
                s,
                64,
                Conv::High53,
                o + i,
            )),
{
    let n = obs.len();
    match sml::recover(obs) {
        Some(seed) => {
            let p = Predictor {
                id: id("SpiderMonkey", "drand48 48-bit LCG (26+27)", "Firefox ≤48", 53, "yes if ≤FF23, else CSPRNG"),
                gen: Gen::Drand48Sm(seed),
                observed: n,
            };
            proof {
                assert forall|i: int| 0 <= i < n implies close(#[trigger] p.value_at(i), obs@[i], p.tol()) by {
                    lemma_fwd_d48(seed, i as nat);
                    assert(close(sml::outputs(seed, n as nat)[i], obs@[i], sml::TOL));
                }
            }
            Some(p)
        },
        None => match dart::recover(obs) {
            Some(st) => {
                let p = Predictor {
                    id: id(
                        "Dart",
                        "MWC, A = 0xffffda61 (26+27 bits)",
                        "Flutter apps (VM/AOT, wasm, seeded web)",
                        53,
                        "no — entropy source (µs-time fallback)",
                    ),
                    gen: Gen::Dart(st),
                    observed: n,
                };
                proof {
                    assert forall|i: int| 0 <= i < n implies close(#[trigger] p.value_at(i), obs@[i], p.tol()) by {
                        lemma_fwd_dart(st, i as nat);
                        assert(close(dart::outputs(st, n as nat)[i], obs@[i], dart::TOL));
                    }
                }
                Some(p)
            },
            None => match v8::recover_53(obs) {
                Some((seed, offset)) => {
                    let p = Predictor {
                        id: id(
                            "V8",
                            "xorshift128+ (s0>>11, reversed cache, 2⁻⁵³)",
                            "Chrome 135–143",
                            53,
                            "no — OS CSPRNG",
                        ),
                        gen: Gen::V8Wide { seed, offset },
                        observed: n,
                    };
                    proof {
                        let full = v8::served_53(seed, (offset + n) as nat);
                        assert forall|i: int| 0 <= i < n implies close(#[trigger] p.value_at(i), obs@[i], p.tol()) by {
                            lemma_fwd_v8(seed, (offset + n) as nat, offset + i);
                            assert(full.subrange(offset as int, (offset + n) as int)[i] == full[offset + i]);
                        }
                    }
                    Some(p)
                },
                None => None,
            },
        },
    }
}

/// Recover a [`Predictor`] from consecutive observed numerators on a grid of
/// `2^-grid` (grid 0 stands for Hermes' non-dyadic `1/R²`). Tries each engine
/// that lives on that grid and verifies by reproduction. The eras that need an
/// SMT solver (modern SpiderMonkey, V8 4.9 and 5.x, V8 4.9-dev Stage A) are
/// left to [`recover_start`] and [`recover_resume`].
pub fn recover(obs: &[u64], grid: u32) -> (r: Option<Predictor>)
    requires
        obs.len() + 64 <= usize::MAX,
    ensures
        r matches Some(p) ==> p.reproduces(obs@) && recovered_as(p.id_spec(), grid),
        grid == 30 && obs.len() >= 3 && (exists|st: u32| v8_libc::outputs(st, obs.len() as nat) == obs@)
            ==> r is Some,
        grid == 32 && obs.len() >= 3 && (exists|m: v8_legacy::Mwc|
            v8_legacy::shipped(m) && #[trigger] v8_legacy::mwc_outputs(m, obs.len() as nat) == obs@) ==> (r matches Some(
            p,
        ) && (p.id_spec() == ident_mwc() || p.id_spec() == ident_mwc14())),
        grid == 53 && obs.len() >= 2 && (exists|st: u64| sml::outputs(st, obs.len() as nat) == obs@) ==> r is Some,
        grid == 53 && obs.len() >= 3 && (exists|st: u64| dart::outputs(st, obs.len() as nat) == obs@) ==> r is Some,
        grid == 52 && obs.len() >= 8 && (exists|s: XorShift128Plus, o: nat|
            v8::serves(s, o, obs@) && #[trigger] v8::determined(s, o, obs@)) ==> r is Some,
        grid == 53 && obs.len() >= 8 && (exists|s: XorShift128Plus, o: nat|
            v8::serves_with(s, o, obs@, 11) && #[trigger] v8::determined_with(s, o, obs@, 11)) ==> r is Some,
        grid == 54 && obs.len() >= 3 && (exists|i: int| 0 <= i < obs.len() && obs@[i] < jscript::HALF) && (exists|
            st: u64,
        | jscript::outputs(st, obs.len() as nat) == obs@) ==> r is Some,
        grid == 0 && obs.len() >= 2 && hermes::reproducible(obs@) ==> r is Some,
        grid != 0 && grid != 30 && grid != 32 && grid != 52 && grid != 53 && grid != 54 ==> r is None,
        forall|g: GameRand|
            grid == 32 && obs.len() >= 3 && (forall|i: int| 0 <= i < obs.len() ==> obs@[i] <= 0xffff_ffff)
                && #[trigger] jsc::outputs(g, obs.len() as nat) == Seq::new(obs.len() as nat, |i: int| obs@[i] as u32)
                && !(exists|m: v8_legacy::Mwc|
                v8_legacy::shipped(m) && #[trigger] v8_legacy::mwc_outputs(m, obs.len() as nat) == obs@) ==> (r matches Some(
                p,
            ) && p.id_spec() == ident_gamerand() && forall|i: int| #[trigger] p.value_at(i) == gr_at(g, i + 1).high as u64),
        forall|st: u64|
            grid == 53 && obs.len() >= 2 && sml::outputs(st, obs.len() as nat) == obs@ && #[trigger] sml::pinned(st, obs@)
                ==> (r matches Some(p) && p.id_spec() == ident_drand48_sm() && forall|i: int| #[trigger] p.value_at(i)
                == sml::output(d48_at(st, 2 * i), 0)),
        forall|st: u64|
            grid == 53 && obs.len() >= 3 && dart::outputs(st, obs.len() as nat) == obs@ && #[trigger] dart::pinned(st, obs@)
                && !(exists|t: u64| t <= sml::MASK && #[trigger] all_close(sml::outputs(t, obs.len() as nat), obs@, sml::TOL))
                ==> (r matches Some(p) && p.id_spec() == ident_dart() && forall|i: int| #[trigger] p.value_at(i)
                == dart::output(dart_at(st, 2 * i), 0)),
        forall|s: XorShift128Plus, o: nat|
            grid == 52 && obs.len() >= 8 && v8::serves(s, o, obs@) && v8::determined(s, o, obs@) && #[trigger] v8::pinned(
                s,
                o,
                obs@,
            ) ==> (r matches Some(p) && p.id_spec() == ident_v8_modern() && forall|i: int| #[trigger] p.value_at(i)
                == served_value(s, 64, Conv::High52, o + i)),
        forall|s: XorShift128Plus, o: nat|
            grid == 53 && obs.len() >= 8 && v8::serves_with(s, o, obs@, 11) && v8::determined_with(s, o, obs@, 11)
                && #[trigger] v8::pinned_53(s, o, obs@) && !(exists|t: u64|
                t <= sml::MASK && #[trigger] all_close(sml::outputs(t, obs.len() as nat), obs@, sml::TOL)) && !(exists|
                t: u64,
            | #[trigger] all_close(dart::outputs(t, obs.len() as nat), obs@, dart::TOL)) ==> (r matches Some(p)
                && p.id_spec() == ident_v8_wide() && forall|i: int| #[trigger] p.value_at(i) == served_value(
                s,
                64,
                Conv::High53,
                o + i,
            )),
        grid == 32 ==> (r matches Some(p) ==> ((p.id_spec() == ident_mwc() || p.id_spec() == ident_mwc14()) ==> exists|
            m: v8_legacy::Mwc,
        |
            v8_legacy::shipped(m) && #[trigger] v8_legacy::mwc_outputs(m, obs.len() as nat) == obs@ && (forall|i: int|
                #[trigger] p.value_at(i) == v8_legacy::fold(lane_at(m.s0, m.mult0, i), lane_at(m.s1, m.mult1, i), m.combine))
                && p.id_spec() == (if m.combine == v8_legacy::Combine::Shift14 {
                ident_mwc14()
            } else {
                ident_mwc()
            }))),
        forall|st: u32|
            grid == 0 && obs.len() >= 2 && 0 < st < hermes::M && #[trigger] hermes::outputs(st, obs.len() as nat)
                == obs@ ==> (r matches Some(p) && p.id_spec() == ident_hermes()
                && forall|i: int| #[trigger] p.value_at(i) == hermes::output(hermes_at(st, 2 * i), 0)),
{
    let n = obs.len();
    if grid == 30 {
        match v8_libc::recover(obs) {
            Some(st) => {
                let p = Predictor {
                    id: id("V8", "libc rand()×2 (srand(time))", "Chrome 1", 30, "yes — wall-clock ms"),
                    gen: Gen::Libc(st),
                    observed: n,
                };
                proof {
                    assert forall|i: int| 0 <= i < n implies close(#[trigger] p.value_at(i), obs@[i], p.tol()) by {
                        lemma_fwd_libc(st, i as nat);
                        assert(obs@[i] == v8_libc::outputs(st, n as nat)[i]);
                    }
                }
                Some(p)
            },
            None => None,
        }
    } else if grid == 32 {
        recover_32(obs)
    } else if grid == 52 {
        match v8::recover(obs) {
            Some((seed, offset)) => {
                let p = Predictor {
                    id: id("V8", "xorshift128+ (s0>>12, reversed cache)", "Chrome 70+, Edge, Brave, Vivaldi, Opera", 52, "no — OS CSPRNG"),
                    gen: Gen::V8Modern { seed, offset },
                    observed: n,
                };
                proof {
                    let full = v8::served(seed, (offset + n) as nat);
                    assert forall|i: int| 0 <= i < n implies close(#[trigger] p.value_at(i), obs@[i], p.tol()) by {
                        lemma_fwd_v8(seed, (offset + n) as nat, offset + i);
                        assert(full.subrange(offset as int, (offset + n) as int)[i] == full[offset + i]);
                    }
                }
                Some(p)
            },
            None => None,
        }
    } else if grid == 53 {
        recover_53(obs)
    } else if grid == 0 {
        match hermes::recover(obs) {
            Some(st) => {
                let p = Predictor {
                    id: id(
                        "Hermes",
                        "std::minstd_rand ×2 (generate_canonical)",
                        "React Native (Hermes era 1)",
                        0,
                        "no — 32-bit random_device",
                    ),
                    gen: Gen::HermesLcg(st),
                    observed: n,
                };
                proof {
                    assert forall|i: int| 0 <= i < n implies close(#[trigger] p.value_at(i), obs@[i], p.tol()) by {
                        lemma_fwd_hermes(st, i as nat);
                        assert(close(hermes::outputs(st, n as nat)[i], obs@[i], hermes::TOL));
                    }
                }
                Some(p)
            },
            None => None,
        }
    } else if grid == 54 {
        match jscript::recover(obs) {
            Some(seed) => {
                let p = Predictor {
                    id: id("JScript/Chakra", "drand48 48-bit LCG (27+27 → 2⁻⁵⁴)", "Internet Explorer 6–11", 54, "yes — RDTSC timer"),
                    gen: Gen::Drand48Ie(seed),
                    observed: n,
                };
                proof {
                    assert forall|i: int| 0 <= i < n implies close(#[trigger] p.value_at(i), obs@[i], p.tol()) by {
                        lemma_fwd_d48(seed, i as nat);
                        assert(close(jscript::outputs(seed, n as nat)[i], obs@[i], jscript::TOL));
                    }
                }
                Some(p)
            },
            None => None,
        }
    } else {
        None
    }
}

/// Which solver question is open.
#[derive(Clone, Copy, Debug, PartialEq, Eq, Structural)]
pub enum Stage {
    /// V8 4.9 Stage B: in-order `(s0+s1) & mask52`.
    Early,
    /// V8 5.1–5.3 at the given batch offset.
    Rev5x(usize),
    /// Modern SpiderMonkey: in-order low 53 bits of `s0+s1`.
    SpiderMonkey,
    /// V8 4.9-dev Stage A: two MWC lanes xored into the mantissa.
    StageA,
}

impl Stage {
    /// How many low bits of each output the stage's engine shows: of the sum
    /// for the xorshift128+ stages, of the rotated lanes for Stage A.
    pub open spec fn width_spec(self) -> nat {
        if self == Stage::SpiderMonkey {
            53
        } else if self == Stage::StageA {
            32
        } else {
            52
        }
    }

    /// How many seconds the solver is given for the stage's question.
    pub fn time_limit(self) -> (r: u32)
        ensures
            r == (match self {
                Stage::Early => 120u32,
                Stage::Rev5x(_) => 30u32,
                Stage::SpiderMonkey => 60u32,
                Stage::StageA => 60u32,
            }),
    {
        match self {
            Stage::Early => 120,
            Stage::Rev5x(_) => 30,
            Stage::SpiderMonkey => 60,
            Stage::StageA => 60,
        }
    }

    /// How many low bits of each output the stage's engine shows.
    pub fn width(self) -> (r: u32)
        ensures
            r == self.width_spec(),
    {
        if self == Stage::SpiderMonkey {
            53
        } else if self == Stage::StageA {
            32
        } else {
            52
        }
    }
}

/// The solver script for an open question: for Stage A, the two MWC lane
/// states whose first eight rotated xors are `targets`; otherwise an
/// xorshift128+ state with the usual shifts (23, 17, 26) whose first eight
/// in-order sums have the stage's low bits equal to `targets`.
pub fn question(stage: Stage, targets: &[u64]) -> (r: Vec<u8>)
    requires
        targets.len() >= 8,
    ensures
        stage == Stage::StageA ==> r@ == mwc_xor_text(
            targets@,
            8,
            v8_legacy::MULT0_3D as nat,
            v8_legacy::MULT1 as nat,
        ),
        stage != Stage::StageA ==> r@ == xorshift_text(
            targets@,
            8,
            stage.width_spec(),
            Shifts::Fixed(23, 17, 26),
            true,
        ),
{
    if stage == Stage::StageA {
        mwc_xor_script(targets, 8, v8_legacy::MULT0_3D, v8_legacy::MULT1)
    } else {
        xorshift_script(targets, 8, stage.width(), Shifts::Fixed(23, 17, 26), true)
    }
}

/// A modern-SpiderMonkey capture's own generator answers the question asked
/// for it: whenever the first eight SpiderMonkey outputs of a state `s` are the
/// targets, giving the question's unknowns the values of `s`'s run satisfies
/// every equation of every step of [`question`]`(Stage::SpiderMonkey, ..)`.
pub proof fn lemma_spidermonkey_state_answers_question(s: XorShift128Plus, targets: Seq<u64>)
    requires
        targets.len() >= 8,
        spidermonkey::outputs(s, 8) == targets.subrange(0, 8),
    ensures
        forall|i: nat, j: int|
            i < 8 && 0 <= j < 4 ==> #[trigger] crate::smt::holds(
                crate::smt::step_equations(i, targets[i as int], Stage::SpiderMonkey.width_spec(), Shifts::Fixed(23, 17, 26), true)[j],
                crate::smt::run_env(s, 23, 17, 26),
            ),
{
    vstd::arithmetic::power2::lemma2_to64();
    vstd::arithmetic::power2::lemma2_to64_rest();
    assert forall|i: nat| i < 8 implies #[trigger] targets[i as int] as int == (v8::iterate_with(s, 23, 17, 26, i + 1).s0.wrapping_add(
        v8::iterate_with(s, 23, 17, 26, i + 1).s1,
    )) as int % (pow2(53) as int) by {
        v8::lemma_iterate_with_std(s, i + 1);
        assert(targets[i as int] == targets.subrange(0, 8)[i as int]);
        assert(spidermonkey::outputs(s, 8)[i as int] == spidermonkey::low53(
            iterate(s, i + 1).s0.wrapping_add(iterate(s, i + 1).s1),
        ));
        assert(pow2(53) == spidermonkey::P53);
        let sum = iterate(s, i + 1).s0.wrapping_add(iterate(s, i + 1).s1);
        assert(spidermonkey::low53(sum) as int == (sum as int) % (spidermonkey::P53 as int));
    }
    crate::smt::lemma_run_satisfies_question(s, 23, 17, 26, Shifts::Fixed(23, 17, 26), targets, 8, 53, true);
}

/// Where a recovery stands: finished, or waiting for a solver to find a state
/// `(s0, s1)` whose first eight outputs are the given numerators: an
/// xorshift128+ state (low 52 bits of the in-order sum for the V8 stages, low
/// 53 for SpiderMonkey), or the two MWC lanes of Stage A.
pub enum Step {
    Done(Option<Predictor>),
    Ask(Stage, Vec<u64>),
}

/// The eight numerators the solver needs from the start of the capture.
fn first8(obs: &[u64]) -> (r: Vec<u64>)
    requires
        obs.len() >= 8,
    ensures
        r@ == obs@.subrange(0, 8),
{
    let mut r: Vec<u64> = Vec::new();
    let mut i: usize = 0;
    while i < 8
        invariant
            i <= 8,
            obs.len() >= 8,
            r@ == obs@.subrange(0, i as int),
        decreases 8 - i,
    {
        r.push(obs[i]);
        i = i + 1;
        proof {
            assert(r@ =~= obs@.subrange(0, i as int));
        }
    }
    r
}

/// Start recovering: the engines that need no solver are tried first; when
/// none fits a grid whose remaining eras need one, the first question is asked.
pub fn recover_start(obs: &[u64], grid: u32) -> (r: Step)
    requires
        obs.len() + 64 <= usize::MAX,
    ensures
        r matches Step::Done(Some(p)) ==> p.reproduces(obs@) && recovered_as(p.id_spec(), grid),
        r matches Step::Done(None) ==> !((grid == 32 || grid == 52 || grid == 53) && obs.len() >= 8),
        r matches Step::Ask(stage, t) ==> obs.len() >= 8 && t@ == obs@.subrange(0, 8) && (
        (stage == Stage::Early && grid == 52) || (stage == Stage::SpiderMonkey && grid == 53) || (stage
            == Stage::StageA && grid == 32)),
        grid != 32 && grid != 52 && grid != 53 ==> r is Done,
        grid == 30 && obs.len() >= 3 && (exists|st: u32| v8_libc::outputs(st, obs.len() as nat) == obs@)
            ==> r matches Step::Done(Some(_)),
        grid == 32 && obs.len() >= 3 && (exists|m: v8_legacy::Mwc|
            v8_legacy::shipped(m) && #[trigger] v8_legacy::mwc_outputs(m, obs.len() as nat) == obs@) ==> (r matches Step::Done(
            Some(p),
        ) && (p.id_spec() == ident_mwc() || p.id_spec() == ident_mwc14())),
        grid == 53 && obs.len() >= 2 && (exists|st: u64| sml::outputs(st, obs.len() as nat) == obs@)
            ==> r matches Step::Done(Some(_)),
        grid == 53 && obs.len() >= 3 && (exists|st: u64| dart::outputs(st, obs.len() as nat) == obs@)
            ==> r matches Step::Done(Some(_)),
        grid == 52 && obs.len() >= 8 && (exists|s: XorShift128Plus, o: nat|
            v8::serves(s, o, obs@) && #[trigger] v8::determined(s, o, obs@)) ==> r matches Step::Done(Some(_)),
        grid == 53 && obs.len() >= 8 && (exists|s: XorShift128Plus, o: nat|
            v8::serves_with(s, o, obs@, 11) && #[trigger] v8::determined_with(s, o, obs@, 11))
            ==> r matches Step::Done(Some(_)),
        grid == 0 && obs.len() >= 2 && hermes::reproducible(obs@) ==> r matches Step::Done(Some(_)),
        grid == 54 && obs.len() >= 3 && (exists|i: int| 0 <= i < obs.len() && obs@[i] < jscript::HALF) && (exists|
            st: u64,
        | jscript::outputs(st, obs.len() as nat) == obs@) ==> r matches Step::Done(Some(_)),
{
    match recover(obs, grid) {
        Some(p) => Step::Done(Some(p)),
        None => {
            if (grid == 32 || grid == 52 || grid == 53) && obs.len() >= 8 {
                let stage = if grid == 32 {
                    Stage::StageA
                } else if grid == 52 {
                    Stage::Early
                } else {
                    Stage::SpiderMonkey
                };
                Step::Ask(stage, first8(obs))
            } else {
                Step::Done(None)
            }
        },
    }
}

/// The V8 5.1–5.3 question at batch offset `o`, if there is one left to ask.
fn ask_5x(obs: &[u64], o: usize) -> (r: Step)
    ensures
        r is Ask <==> obs.len() >= v8::BATCH_5X + 8 && o < v8::BATCH_5X - 8,
        r matches Step::Done(d) ==> d is None,
        r matches Step::Ask(stage, t) ==> stage == Stage::Rev5x(o) && o < v8::BATCH_5X - 8 && obs.len() >= v8::BATCH_5X
            + 8 && t@ == Seq::new(8, |i: int| obs@[61 - o - i]),
{
    if obs.len() >= v8::BATCH_5X + 8 && o < v8::BATCH_5X - 8 {
        Step::Ask(Stage::Rev5x(o), v8::window_5x(obs, o))
    } else {
        Step::Done(None)
    }
}

/// Continue a recovery with the solver's answer to the open question (`None`
/// when it found no state). A proposed state is accepted only if it reproduces
/// every observed numerator; otherwise the next question is asked, or the
/// recovery ends without a predictor.
pub fn recover_resume(obs: &[u64], stage: Stage, answer: Option<(u64, u64)>) -> (r: Step)
    requires
        obs.len() + 64 <= usize::MAX,
    ensures
        r matches Step::Done(Some(p)) ==> p.reproduces(obs@) && p.id_spec() == solved_as(stage),
        r matches Step::Ask(next, t) ==> (exists|o: usize|
            next == Stage::Rev5x(o) && o < v8::BATCH_5X - 8 && obs.len() >= v8::BATCH_5X + 8 && t@ == Seq::new(
                8,
                |i: int| obs@[61 - o - i],
            )),
        stage == Stage::SpiderMonkey ==> r is Done,
        stage == Stage::StageA ==> r is Done,
        stage == Stage::Early && !(r matches Step::Done(Some(_))) ==> if obs.len() >= v8::BATCH_5X + 8 {
            r matches Step::Ask(next, _) && next == Stage::Rev5x(0)
        } else {
            r matches Step::Done(None)
        },
        stage matches Stage::Rev5x(o) ==> (!(r matches Step::Done(Some(_))) ==> if obs.len() >= v8::BATCH_5X + 8 && o
            + 1 < v8::BATCH_5X - 8 {
            r matches Step::Ask(next, _) && next == Stage::Rev5x((o + 1) as usize)
        } else {
            r matches Step::Done(None)
        }),
        stage == Stage::StageA ==> (answer matches Some(a) ==> (obs.len() >= 8 && a.0 <= u32::MAX && a.1
            <= u32::MAX && v8_legacy::stage_a_outputs(a.0 as u32, a.1 as u32, obs.len() as nat) == obs@ ==> (
        r matches Step::Done(Some(_))))),
        stage == Stage::Early ==> (answer matches Some(a) ==> (obs.len() >= 8 && all_close(
            v8::early_outputs(XorShift128Plus { s0: a.0, s1: a.1 }, obs.len() as nat),
            obs@,
            v8::TOL,
        ) ==> (r matches Step::Done(Some(_))))),
        stage matches Stage::Rev5x(o) ==> (answer matches Some(a) ==> (obs.len() >= v8::BATCH_5X + 8 && o
            < v8::BATCH_5X - 8 && all_close(
            v8::served_5x(XorShift128Plus { s0: a.0, s1: a.1 }, (o + obs.len()) as nat).subrange(
                o as int,
                (o + obs.len()) as int,
            ),
            obs@,
            v8::TOL,
        ) ==> (r matches Step::Done(Some(_))))),
        stage == Stage::SpiderMonkey ==> (answer matches Some(a) ==> (obs.len() >= 8 && all_close(
            spidermonkey::outputs(XorShift128Plus { s0: a.0, s1: a.1 }, obs.len() as nat),
            obs@,
            spidermonkey::TOL,
        ) ==> (r matches Step::Done(Some(_))))),
{
    let n = obs.len();
    match stage {
        Stage::Early => {
            if let Some((s0, s1)) = answer {
                if let Some(seed) = v8::recover_early(obs, s0, s1) {
                    let p = Predictor {
                        id: id("V8", "xorshift128+ in-order ((s0+s1)&mask52, 4.9 Stage B)", "Chrome 49–50", 52, "no — OS CSPRNG"),
                        gen: Gen::V8StageB { seed },
                        observed: n,
                    };
                    proof {
                        assert forall|i: int| 0 <= i < n implies close(#[trigger] p.value_at(i), obs@[i], p.tol()) by {
                            lemma_fwd_xs(seed, i as nat);
                            assert(close(v8::early_outputs(seed, n as nat)[i], obs@[i], v8::TOL));
                        }
                    }
                    return Step::Done(Some(p));
                }
            }
            ask_5x(obs, 0)
        },
        Stage::Rev5x(o) => {
            if let Some((s0, s1)) = answer {
                if let Some((seed, offset)) = v8::recover_5x(obs, o, s0, s1) {
                    let p = Predictor {
                        id: id("V8", "xorshift128+ reversed-62 ((s0+s1)&mask52, V8 5.1–5.3)", "Chrome 52–53, Opera 38–40", 52, "no — OS CSPRNG"),
                        gen: Gen::V8Rev5x { seed, offset },
                        observed: n,
                    };
                    proof {
                        let full = v8::served_5x(seed, (offset + n) as nat);
                        assert forall|i: int| 0 <= i < n implies close(#[trigger] p.value_at(i), obs@[i], p.tol()) by {
                            lemma_fwd_v8(seed, (offset + n) as nat, offset + i);
                            assert(full.subrange(offset as int, (offset + n) as int)[i] == full[offset + i]);
                        }
                    }
                    return Step::Done(Some(p));
                }
            }
            if o < v8::BATCH_5X {
                ask_5x(obs, o + 1)
            } else {
                Step::Done(None)
            }
        },
        Stage::SpiderMonkey => {
            if let Some((s0, s1)) = answer {
                if let Some(seed) = spidermonkey::recover(obs, s0, s1) {
                    let p = Predictor {
                        id: id("SpiderMonkey", "xorshift128+ ((s0+s1) low 53)", "Firefox 49+, Pale Moon", 53, "no — OS CSPRNG"),
                        gen: Gen::SmModern(seed),
                        observed: n,
                    };
                    proof {
                        assert forall|i: int| 0 <= i < n implies close(#[trigger] p.value_at(i), obs@[i], p.tol()) by {
                            lemma_fwd_xs(seed, i as nat);
                            assert(close(spidermonkey::outputs(seed, n as nat)[i], obs@[i], spidermonkey::TOL));
                        }
                    }
                    return Step::Done(Some(p));
                }
            }
            Step::Done(None)
        },
        Stage::StageA => {
            if let Some((a, b)) = answer {
                if a <= 0xffff_ffff && b <= 0xffff_ffff {
                    if let Some((s0, s1)) = v8_legacy::recover_stage_a(obs, a as u32, b as u32) {
                        let p = Predictor {
                            id: id("V8", "MWC + %_ConstructDouble (4.9 Stage A)", "Chrome 48", 32, "CSPRNG"),
                            gen: Gen::MwcStageA { s0, s1 },
                            observed: n,
                        };
                        proof {
                            assert forall|i: int| 0 <= i < n implies close(#[trigger] p.value_at(i), obs@[i], p.tol()) by {
                                lemma_fwd_stage_a(s0, s1, i as nat);
                                assert(obs@[i] == v8_legacy::stage_a_outputs(s0, s1, n as nat)[i]);
                            }
                        }
                        return Step::Done(Some(p));
                    }
                }
            }
            Step::Done(None)
        },
    }
}

/// Identify the engine/era of a capture from the outcome of its recovery: the
/// recovered predictor's identification, or — for a 2⁻⁵³ grid that neither
/// drand48 nor modern SpiderMonkey reproduces — Presto, which can't be
/// recovered.
pub fn identify(found: Option<Predictor>, grid: u32) -> (r: Option<Identification>)
    ensures
        found matches Some(p) ==> r == Some(p.id_spec()),
        found is None && grid == 53 ==> (r matches Some(i) && i.engine@ == "Presto"@ && i.algorithm@
            == "SNOW 2.0 stream cipher (CSPRNG)"@ && i.browsers@ == "Opera 7–12"@ && i.time_seeded@
            == "n/a — continuously reseeded"@ && !i.predictable && i.grid_bits == 53),
        found is None && grid != 53 ==> r is None,
{
    match found {
        Some(p) => Some(*p.id()),
        None => {
            if grid == 53 {
                proof {
                    reveal_strlit("Presto");
                }
                Some(
                    Identification {
                        engine: "Presto",
                        algorithm: "SNOW 2.0 stream cipher (CSPRNG)",
                        browsers: "Opera 7–12",
                        grid_bits: 53,
                        time_seeded: "n/a — continuously reseeded",
                        predictable: false,
                    },
                )
            } else {
                None
            }
        },
    }
}

} // verus!
