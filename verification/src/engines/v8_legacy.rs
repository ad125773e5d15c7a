//! Legacy V8 `Math.random()` — pre-Chrome-49 (2009–2015), e.g. Chrome 10/20/30,
//! Opera 15–35.
//!
//! Two independent George-Marsaglia MWC16 lanes combined into a 32-bit result:
//! ```text
//! s0 = 18273 * (s0 & 0xffff) + (s0 >> 16)
//! s1 = 36969 * (s1 & 0xffff) + (s1 >> 16)
//! r  = ((s0 & 0xffff) << 16) | (s1 & 0xffff)
//! double = r * 2^-32
//! ```
//! That is V8 3.23–3.29; the other shipped eras differ only in the multipliers
//! and the fold ([`Mwc`], [`Combine`]): V8 1.2.8–3.4 shifted the `36969` lane
//! over the `18273` one, V8 3.4.9–3.22 folded `(s0 << 14) + (s1 & 0x3ffff)`
//! (wrapping at 32 bits), and V8 3.30–4.8 used `18030` on the shifted lane.
//! No cache/reversal (that came with the xorshift128+ rewrite), so the stream is
//! contiguous from the first observed value. Outputs are handled here as the
//! 32-bit numerators `r`.
//!
//! Recovery: with the `<<16` fold, `r` directly exposes the low 16 bits of each
//! lane; the missing high 16 bits of a lane follow from two consecutive lows via
//! the MWC carry relation, so no search is needed. The `<<14` fold shows only
//! the low lane's low 14 bits, so its upper 18 bits are searched.
use vstd::prelude::*;
use crate::engines::{all_close, all_within, close};
use vstd::arithmetic::div_mod::{
    lemma_add_mod_noop, lemma_fundamental_div_mod_converse, lemma_mod_add_multiples_vanish, lemma_mod_breakdown,
    lemma_mod_mod, lemma_mod_multiples_vanish, lemma_sub_mod_noop,
};

verus! {

/// Multiplier of the first (high) lane.
pub const MULT0: u64 = 18273;

/// Multiplier of the second (low) lane.
pub const MULT1: u64 = 36969;

/// 2^16.
pub const M16: u64 = 0x1_0000;

/// One MWC16 step: `mult · low16 + high16`.
pub open spec fn lane_step_spec(s: u32, mult: u64) -> u32 {
    (mult * (s % 0x1_0000) + s / 0x1_0000) as u32
}

/// `k` steps of one lane.
pub open spec fn lane_iter(s: u32, mult: u64, k: nat) -> u32
    decreases k,
{
    if k == 0 {
        s
    } else {
        lane_step_spec(lane_iter(s, mult, (k - 1) as nat), mult)
    }
}

/// The `k`-th 32-bit numerator: the low halves of both lanes.
pub open spec fn output(s0: u32, s1: u32, k: nat) -> u64 {
    ((lane_iter(s0, MULT0, k) % 0x1_0000) * 0x1_0000 + lane_iter(s1, MULT1, k) % 0x1_0000) as u64
}

/// The first `n` numerators from the two lane states.
pub open spec fn outputs(s0: u32, s1: u32, n: nat) -> Seq<u64> {
    Seq::new(n, |k: int| output(s0, s1, k as nat))
}

/// The lane state whose low half is `lo0` and whose successor's low half is
/// `lo1`.
pub open spec fn lane_seed_spec(lo0: u64, lo1: u64, mult: u64) -> u32 {
    (((lo1 + M16 - (mult * lo0) % (M16 as int)) % (M16 as int)) * M16 + lo0) as u32
}

pub(crate) fn lane_step(s: u32, mult: u64) -> (r: u32)
    requires
        mult < M16,
    ensures
        r == lane_step_spec(s, mult),
{
    let lo = (s % 0x1_0000) as u64;
    let hi = (s / 0x1_0000) as u64;
    assert(mult * lo <= 0xffff * 0xffff) by (nonlinear_arith)
        requires
            mult < M16,
            lo < 0x1_0000,
    ;
    (mult * lo + hi) as u32
}

/// Generate `n` numerators from the two 32-bit lane states.
pub fn generate(s0: u32, s1: u32, n: usize) -> (out: Vec<u64>)
    ensures
        out@ == outputs(s0, s1, n as nat),
{
    let mut a = s0;
    let mut b = s1;
    let mut out: Vec<u64> = Vec::new();
    let mut k: usize = 0;
    while k < n
        invariant
            k <= n,
            a == lane_iter(s0, MULT0, k as nat),
            b == lane_iter(s1, MULT1, k as nat),
            out@ == Seq::new(k as nat, |j: int| output(s0, s1, j as nat)),
        decreases n - k,
    {
        let r = ((a % 0x1_0000) as u64) * 0x1_0000 + (b % 0x1_0000) as u64;
        out.push(r);
        a = lane_step(a, MULT0);
        b = lane_step(b, MULT1);
        k = k + 1;
        proof {
            assert(out@ =~= Seq::new(k as nat, |j: int| output(s0, s1, j as nat)));
        }
    }
    out
}

/// Recover the missing high 16 bits of a lane from two consecutive lows.
fn lane_seed(lo0: u64, lo1: u64, mult: u64) -> (r: u32)
    requires
        lo0 < M16,
        lo1 < M16,
        mult < M16,
    ensures
        r == lane_seed_spec(lo0, lo1, mult),
{
    assert(mult * lo0 <= 0xffff * 0xffff) by (nonlinear_arith)
        requires
            mult < M16,
            lo0 < M16,
    ;
    let hi0 = (lo1 + M16 - (mult * lo0) % M16) % M16;
    (hi0 * M16 + lo0) as u32
}

/// A lane state is pinned by its low half and its successor's low half.
proof fn lemma_lane_seed(t: u32, mult: u64)
    requires
        mult < M16,
    ensures
        lane_seed_spec(
            (t % 0x1_0000) as u64,
            (lane_step_spec(t, mult) % 0x1_0000) as u64,
            mult,
        ) == t,
{
    let lo = (t % 0x1_0000) as u64;
    let hi = (t / 0x1_0000) as u64;
    assert(mult * lo <= 0xffff * 0xffff) by (nonlinear_arith)
        requires
            mult < M16,
            lo < 0x1_0000,
    ;
    let x = mult * lo;
    let p = x % (M16 as int);
    let a1 = (x + hi) % (M16 as int);
    assert(lane_step_spec(t, mult) == x + hi);
    lemma_add_mod_noop(x, hi as int, M16 as int);
    assert(a1 == (p + hi) % (M16 as int));
    assert((a1 + M16 - p) % (M16 as int) == hi);
    lemma_fundamental_div_mod_converse(t as int, 0x1_0000, hi as int, lo as int);
}

/// Recover both lane states (the seed producing `obs[0]`) from observed
/// numerators. The state is unique: whenever some lane states reproduce the
/// capture, those are the ones returned.
#[verifier::spinoff_prover]
pub fn recover(obs: &[u64]) -> (r: Option<(u32, u32)>)
    ensures
        obs.len() < 3 ==> r is None,
        r matches Some(st) ==> outputs(st.0, st.1, obs.len() as nat) == obs@,
        obs.len() >= 3 ==> forall|t0: u32, t1: u32|
            #[trigger] outputs(t0, t1, obs.len() as nat) == obs@ ==> r == Some((t0, t1)),
{
    if obs.len() < 3 {
        return None;
    }
    let a0 = (obs[0] / 0x1_0000) % 0x1_0000;
    let a1 = (obs[1] / 0x1_0000) % 0x1_0000;
    let b0 = obs[0] % 0x1_0000;
    let b1 = obs[1] % 0x1_0000;
    let s0 = lane_seed(a0, a1, MULT0);
    let s1 = lane_seed(b0, b1, MULT1);
    let regen = generate(s0, s1, obs.len());
    proof {
        assert forall|t0: u32, t1: u32| #[trigger] outputs(t0, t1, obs.len() as nat) == obs@ implies s0 == t0
            && s1 == t1 && all_close(regen@, obs@, 0) by {
            assert(obs@[0] == output(t0, t1, 0));
            assert(obs@[1] == output(t0, t1, 1));
            assert(lane_iter(t0, MULT0, 1) == lane_step_spec(lane_iter(t0, MULT0, 0), MULT0));
            assert(lane_iter(t1, MULT1, 1) == lane_step_spec(lane_iter(t1, MULT1, 0), MULT1));
            let o0 = obs@[0] as int;
            let o1 = obs@[1] as int;
            lemma_fundamental_div_mod_converse(o0, 0x1_0000, (t0 % 0x1_0000) as int, (t1 % 0x1_0000) as int);
            lemma_fundamental_div_mod_converse(
                o1,
                0x1_0000,
                (lane_iter(t0, MULT0, 1) % 0x1_0000) as int,
                (lane_iter(t1, MULT1, 1) % 0x1_0000) as int,
            );
            lemma_lane_seed(t0, MULT0);
            lemma_lane_seed(t1, MULT1);
            assert forall|i: int| 0 <= i < obs.len() implies close(#[trigger] regen@[i], obs@[i], 0) by {}
        }
    }
    if all_within(regen.as_slice(), obs, 0) {
        proof {
            assert forall|i: int| 0 <= i < obs.len() implies regen@[i] == obs@[i] by {
                assert(close(regen@[i], obs@[i], 0));
            }
            assert(regen@ =~= obs@);
        }
        Some((s0, s1))
    } else {
        None
    }
}

// ---- every MWC era -------------------------------------------------------------

/// The multiplier V8 3.30–4.8 used on the shifted lane (the "Marsaglia effect
/// in 3D" fix).
pub const MULT0_3D: u64 = 18030;

/// How the two lanes are folded into the 32-bit result.
#[derive(Clone, Copy, Debug, PartialEq, Eq, Structural)]
pub enum Combine {
    /// `(s0 << 14) + (s1 & 0x3ffff)`, wrapping at 32 bits (V8 3.4.9–3.23).
    Shift14,
    /// `((s0 & 0xffff) << 16) | (s1 & 0xffff)` (the other eras).
    Shift16,
}

/// A legacy V8 generator: the shifted lane `s0` with its multiplier, the low
/// lane `s1` with its multiplier, and the fold.
#[derive(Clone, Copy, Debug, PartialEq, Eq, Structural)]
pub struct Mwc {
    pub s0: u32,
    pub s1: u32,
    pub mult0: u64,
    pub mult1: u64,
    pub combine: Combine,
}

/// The 32-bit result of folding lane states `a` (shifted) and `b`.
pub open spec fn fold(a: u32, b: u32, c: Combine) -> u64 {
    match c {
        Combine::Shift16 => ((a % 0x1_0000) * 0x1_0000 + b % 0x1_0000) as u64,
        Combine::Shift14 => ((a * 0x4000 + b % 0x4_0000) % 0x1_0000_0000) as u64,
    }
}

/// The `k`-th numerator of a generator.
pub open spec fn mwc_output(m: Mwc, k: nat) -> u64 {
    fold(lane_iter(m.s0, m.mult0, k), lane_iter(m.s1, m.mult1, k), m.combine)
}

/// The first `n` numerators of a generator.
pub open spec fn mwc_outputs(m: Mwc, n: nat) -> Seq<u64> {
    Seq::new(n, |k: int| mwc_output(m, k as nat))
}

/// The largest multiplier a lane step can take without overflowing 64 bits.
pub const MAX_MULT: u64 = 0x1_0001_0001_0000;

/// One lane step for any multiplier that keeps `mult · 0xffff + 0xffff` within
/// 64 bits (wrapping the state at 32 bits).
fn lane_step_any(s: u32, mult: u64) -> (r: u32)
    requires
        mult <= MAX_MULT,
    ensures
        r == lane_step_spec(s, mult),
{
    let lo = (s % 0x1_0000) as u64;
    let hi = (s / 0x1_0000) as u64;
    assert(mult * lo + hi <= u64::MAX) by (nonlinear_arith)
        requires
            mult <= MAX_MULT,
            lo < 0x1_0000,
            hi < 0x1_0000,
    ;
    #[verifier::truncate] ((mult * lo + hi) as u32)
}

/// The fold of two lane states.
fn fold_exec(a: u32, b: u32, c: Combine) -> (r: u64)
    ensures
        r == fold(a, b, c),
{
    match c {
        Combine::Shift16 => ((a % 0x1_0000) as u64) * 0x1_0000 + (b % 0x1_0000) as u64,
        Combine::Shift14 => ((a as u64) * 0x4000 + (b % 0x4_0000) as u64) % 0x1_0000_0000,
    }
}

impl Mwc {
    /// The first `n` numerators.
    pub fn generate(&self, n: usize) -> (out: Vec<u64>)
        requires
            self.mult0 <= MAX_MULT,
            self.mult1 <= MAX_MULT,
        ensures
            out@ == mwc_outputs(*self, n as nat),
    {
        let mut a = self.s0;
        let mut b = self.s1;
        let mut out: Vec<u64> = Vec::new();
        let mut k: usize = 0;
        while k < n
            invariant
                k <= n,
                self.mult0 <= MAX_MULT,
                self.mult1 <= MAX_MULT,
                a == lane_iter(self.s0, self.mult0, k as nat),
                b == lane_iter(self.s1, self.mult1, k as nat),
                out@ == Seq::new(k as nat, |j: int| mwc_output(*self, j as nat)),
            decreases n - k,
        {
            out.push(fold_exec(a, b, self.combine));
            a = lane_step_any(a, self.mult0);
            b = lane_step_any(b, self.mult1);
            k = k + 1;
            proof {
                assert(out@ =~= Seq::new(k as nat, |j: int| mwc_output(*self, j as nat)));
            }
        }
        out
    }
}

/// The low 14 bits of a `Shift14` fold are the low lane's.
proof fn lemma_fold14_low(a: u32, b: u32)
    ensures
        fold(a, b, Combine::Shift14) % 0x4000 == b % 0x4000,
{
    let big = b % 0x4_0000;
    let x = a * 0x4000 + big;
    lemma_mod_mod(x, 0x4000, 0x4_0000);
    lemma_mod_multiples_vanish(a as int, big as int, 0x4000);
    lemma_mod_mod(b as int, 0x4000, 16);
}

/// The bits above 14 of a `Shift14` fold, less the low lane's bits 14 to 17,
/// are the shifted lane's low 18 bits.
proof fn lemma_fold14_high(a: u32, b: u32)
    ensures
        (fold(a, b, Combine::Shift14) / 0x4000 + 0x4_0000 - (b % 0x4_0000) / 0x4000) % 0x4_0000 == a % 0x4_0000,
{
    let big = b % 0x4_0000;
    let hb = big / 0x4000;
    let x = a * 0x4000 + big;
    lemma_mod_breakdown(x, 0x4000, 0x4_0000);
    let q = x / 0x4000;
    lemma_fundamental_div_mod_converse(x, 0x4000, a + hb, (big % 0x4000) as int);
    assert(q == a + hb);
    let r = fold(a, b, Combine::Shift14) as int;
    assert(r == x % 0x1_0000_0000);
    assert(r == 0x4000 * (q % 0x4_0000) + x % 0x4000);
    assert(r / 0x4000 == q % 0x4_0000);
    assert(hb < 16);
    lemma_add_mod_noop((a + hb) as int, 0x4_0000 - hb, 0x4_0000);
    lemma_mod_add_multiples_vanish(a as int, 0x4_0000);
}

/// The lane multipliers and folds V8 shipped: `18273·lo + hi` shifted over
/// `36969·lo + hi` by 16 (V8 3.23–3.29) or by 14 (V8 3.4.9–3.22), `18030` on
/// the shifted lane (V8 3.30–4.8), and the first era's `36969` lane shifted
/// over the `18273` one (V8 1.2.8–3.4).
pub open spec fn shipped(m: Mwc) -> bool {
    ||| m.mult0 == MULT0 && m.mult1 == MULT1 && m.combine == Combine::Shift16
    ||| m.mult0 == MULT0_3D && m.mult1 == MULT1 && m.combine == Combine::Shift16
    ||| m.mult0 == MULT1 && m.mult1 == MULT0 && m.combine == Combine::Shift16
    ||| m.mult0 == MULT0 && m.mult1 == MULT1 && m.combine == Combine::Shift14
}

/// Whether two numerator runs are equal.
fn same_run(g: &[u64], o: &[u64]) -> (r: bool)
    ensures
        r == (g@ == o@),
{
    if all_within(g, o, 0) {
        proof {
            assert forall|i: int| 0 <= i < o.len() implies g@[i] == o@[i] by {
                assert(close(g@[i], o@[i], 0));
            }
            assert(g@ =~= o@);
        }
        true
    } else {
        proof {
            if g@ == o@ {
                assert forall|i: int| 0 <= i < o.len() implies close(#[trigger] g@[i], o@[i], 0) by {}
            }
        }
        false
    }
}

/// The `Shift16` generator with the given multipliers that reproduces `obs`;
/// its lanes are pinned by the first two values.
#[verifier::spinoff_prover]
fn try_shift16(obs: &[u64], mult0: u64, mult1: u64) -> (r: Option<Mwc>)
    requires
        obs.len() >= 2,
        mult0 < M16,
        mult1 < M16,
    ensures
        r matches Some(m) ==> m.mult0 == mult0 && m.mult1 == mult1 && m.combine == Combine::Shift16
            && mwc_outputs(m, obs.len() as nat) == obs@,
        forall|t0: u32, t1: u32|
            #[trigger] mwc_outputs(
                Mwc { s0: t0, s1: t1, mult0, mult1, combine: Combine::Shift16 },
                obs.len() as nat,
            ) == obs@ ==> r is Some,
{
    let a0 = (obs[0] / 0x1_0000) % 0x1_0000;
    let a1 = (obs[1] / 0x1_0000) % 0x1_0000;
    let b0 = obs[0] % 0x1_0000;
    let b1 = obs[1] % 0x1_0000;
    let m = Mwc {
        s0: lane_seed(a0, a1, mult0),
        s1: lane_seed(b0, b1, mult1),
        mult0,
        mult1,
        combine: Combine::Shift16,
    };
    let regen = m.generate(obs.len());
    proof {
        assert forall|t0: u32, t1: u32|
            #[trigger] mwc_outputs(
                Mwc { s0: t0, s1: t1, mult0, mult1, combine: Combine::Shift16 },
                obs.len() as nat,
            ) == obs@ implies m.s0 == t0 && m.s1 == t1 by {
            let t = Mwc { s0: t0, s1: t1, mult0, mult1, combine: Combine::Shift16 };
            assert(obs@[0] == mwc_output(t, 0));
            assert(obs@[1] == mwc_output(t, 1));
            assert(lane_iter(t0, mult0, 1) == lane_step_spec(lane_iter(t0, mult0, 0), mult0));
            assert(lane_iter(t1, mult1, 1) == lane_step_spec(lane_iter(t1, mult1, 0), mult1));
            lemma_fundamental_div_mod_converse(
                obs@[0] as int,
                0x1_0000,
                (t0 % 0x1_0000) as int,
                (t1 % 0x1_0000) as int,
            );
            lemma_fundamental_div_mod_converse(
                obs@[1] as int,
                0x1_0000,
                (lane_iter(t0, mult0, 1) % 0x1_0000) as int,
                (lane_iter(t1, mult1, 1) % 0x1_0000) as int,
            );
            lemma_lane_seed(t0, mult0);
            lemma_lane_seed(t1, mult1);
        }
    }
    if same_run(regen.as_slice(), obs) {
        Some(m)
    } else {
        None
    }
}

/// The shifted lane is pinned by its low 18 bits and its successor's.
proof fn lemma_shift14_pin(w0: u32)
    ensures
        ({
            let lo = (w0 % 0x4_0000) % 0x1_0000;
            let a1m = lane_step_spec(w0, MULT0) % 0x4_0000;
            let hi = (a1m + 0x4_0000 - (MULT0 * lo) % 0x4_0000) % 0x4_0000;
            &&& lo == w0 % 0x1_0000
            &&& hi == w0 / 0x1_0000
            &&& hi * 0x1_0000 + lo == w0
        }),
{
    let lo = (w0 % 0x4_0000) % 0x1_0000;
    lemma_mod_mod(w0 as int, 0x1_0000, 4);
    assert(lo == w0 % 0x1_0000);
    let hw = w0 / 0x1_0000;
    let x = MULT0 * lo;
    assert(x <= 0xffff * 0xffff) by (nonlinear_arith)
        requires
            lo < 0x1_0000,
            x == MULT0 * lo,
    ;
    let a1 = lane_step_spec(w0, MULT0) as int;
    assert(a1 == x + hw);
    lemma_add_mod_noop(x as int, hw as int, 0x4_0000);
    lemma_sub_mod_noop(a1, x as int, 0x4_0000);
    lemma_add_mod_noop((a1 % 0x4_0000) - (x % 0x4_0000), 0x4_0000, 0x4_0000);
    lemma_mod_add_multiples_vanish((a1 % 0x4_0000) - (x % 0x4_0000), 0x4_0000);
    assert((a1 - x) % 0x4_0000 == hw % 0x4_0000);
    assert(hw < 0x1_0000);
    lemma_fundamental_div_mod_converse(w0 as int, 0x1_0000, hw as int, lo as int);
}

/// The `Shift14` generator of V8 3.4.9–3.22 that reproduces `obs`. Each value
/// shows the low lane's low 14 bits, so its upper 18 bits are searched; every
/// candidate that also fits the second value pins the shifted lane from the
/// first two values, and is kept only if it reproduces the capture.
#[verifier::rlimit(40)]
fn try_shift14(obs: &[u64]) -> (r: Option<Mwc>)
    requires
        obs.len() >= 2,
    ensures
        r matches Some(m) ==> m.mult0 == MULT0 && m.mult1 == MULT1 && m.combine == Combine::Shift14
            && mwc_outputs(m, obs.len() as nat) == obs@,
        (exists|t0: u32, t1: u32|
            #[trigger] mwc_outputs(
                Mwc { s0: t0, s1: t1, mult0: MULT0, mult1: MULT1, combine: Combine::Shift14 },
                obs.len() as nat,
            ) == obs@) ==> r is Some,
{
    let ghost found = exists|t0: u32, t1: u32|
        #[trigger] mwc_outputs(
            Mwc { s0: t0, s1: t1, mult0: MULT0, mult1: MULT1, combine: Combine::Shift14 },
            obs.len() as nat,
        ) == obs@;
    let ghost (w0, w1) = choose|t0: u32, t1: u32|
        #[trigger] mwc_outputs(
            Mwc { s0: t0, s1: t1, mult0: MULT0, mult1: MULT1, combine: Combine::Shift14 },
            obs.len() as nat,
        ) == obs@;
    let ghost wm = Mwc { s0: w0, s1: w1, mult0: MULT0, mult1: MULT1, combine: Combine::Shift14 };
    let ghost hw = (w1 / 0x4000) as u64;
    let low0 = obs[0] % 0x4000;
    let low1 = obs[1] % 0x4000;
    let hi0 = obs[0] / 0x4000;
    let hi1 = obs[1] / 0x4000;
    proof {
        if found {
            assert(obs@[0] == mwc_output(wm, 0));
            assert(obs@[1] == mwc_output(wm, 1));
            assert(lane_iter(w0, MULT0, 1) == lane_step_spec(w0, MULT0));
            assert(lane_iter(w1, MULT1, 1) == lane_step_spec(w1, MULT1));
            lemma_fold14_low(w0, w1);
            lemma_fold14_low(lane_step_spec(w0, MULT0), lane_step_spec(w1, MULT1));
            lemma_fold14_high(w0, w1);
            lemma_fold14_high(lane_step_spec(w0, MULT0), lane_step_spec(w1, MULT1));
            lemma_shift14_pin(w0);
            lemma_fundamental_div_mod_converse(w1 as int, 0x4000, hw as int, (w1 % 0x4000) as int);
        }
    }
    let mut h: u64 = 0;
    while h < 0x4_0000
        invariant
            h <= 0x4_0000,
            obs.len() >= 2,
            low0 == obs@[0] % 0x4000,
            low1 == obs@[1] % 0x4000,
            hi0 == obs@[0] / 0x4000,
            hi1 == obs@[1] / 0x4000,
            found ==> mwc_outputs(wm, obs.len() as nat) == obs@,
            found ==> hw * 0x4000 + low0 == w1,
            found ==> lane_step_spec(w1, MULT1) % 0x4000 == low1,
            found ==> (hi0 + 0x4_0000 - (w1 % 0x4_0000) / 0x4000) % 0x4_0000 == w0 % 0x4_0000,
            found ==> (hi1 + 0x4_0000 - (lane_step_spec(w1, MULT1) % 0x4_0000) / 0x4000) % 0x4_0000
                == lane_step_spec(w0, MULT0) % 0x4_0000,
            found ==> h <= hw,
            wm == (Mwc { s0: w0, s1: w1, mult0: MULT0, mult1: MULT1, combine: Combine::Shift14 }),
            hw < 0x4_0000,
        decreases 0x4_0000 - h,
    {
        let b0 = (h * 0x4000 + low0) as u32;
        let b1 = lane_step(b0, MULT1);
        if (b1 as u64) % 0x4000 == low1 {
            let a0m = (hi0 + 0x4_0000 - ((b0 as u64) % 0x4_0000) / 0x4000) % 0x4_0000;
            let a1m = (hi1 + 0x4_0000 - ((b1 as u64) % 0x4_0000) / 0x4000) % 0x4_0000;
            let lo = a0m % 0x1_0000;
            let hi = (a1m + 0x4_0000 - (MULT0 * lo) % 0x4_0000) % 0x4_0000;
            if hi < 0x1_0000 {
                let m = Mwc {
                    s0: (hi * 0x1_0000 + lo) as u32,
                    s1: b0,
                    mult0: MULT0,
                    mult1: MULT1,
                    combine: Combine::Shift14,
                };
                let regen = m.generate(obs.len());
                proof {
                    if found && h == hw {
                        lemma_shift14_pin(w0);
                        assert(m == wm);
                    }
                }
                if same_run(regen.as_slice(), obs) {
                    return Some(m);
                }
            }
        }
        proof {
            if found && h == hw {
                lemma_shift14_pin(w0);
            }
            assert(!(found && h == hw));
        }
        h = h + 1;
    }
    None
}

/// Recover the generator of any era V8 shipped from observed numerators: the
/// `<<16` eras are tried first (`18273`/`36969`, then `18030`/`36969`, then the
/// first era's `36969`/`18273`), then the `<<14` era. Verified by full
/// reproduction; whenever some shipped generator reproduces the capture, one is
/// found.
pub fn recover_mwc(obs: &[u64]) -> (r: Option<Mwc>)
    ensures
        obs.len() < 3 ==> r is None,
        r matches Some(m) ==> shipped(m) && mwc_outputs(m, obs.len() as nat) == obs@,
        obs.len() >= 3 && (exists|m: Mwc| shipped(m) && #[trigger] mwc_outputs(m, obs.len() as nat) == obs@)
            ==> r is Some,
{
    if obs.len() < 3 {
        return None;
    }
    let r = try_shift16(obs, MULT0, MULT1);
    if r.is_some() {
        return r;
    }
    let r = try_shift16(obs, MULT0_3D, MULT1);
    if r.is_some() {
        return r;
    }
    let r = try_shift16(obs, MULT1, MULT0);
    if r.is_some() {
        return r;
    }
    let r = try_shift14(obs);
    proof {
        if exists|m: Mwc| shipped(m) && #[trigger] mwc_outputs(m, obs.len() as nat) == obs@ {
            let m = choose|m: Mwc| shipped(m) && #[trigger] mwc_outputs(m, obs.len() as nat) == obs@;
            assert(m == (Mwc { s0: m.s0, s1: m.s1, mult0: m.mult0, mult1: m.mult1, combine: m.combine }));
        }
    }
    r
}

// ---- V8 4.9-dev "Stage A" -------------------------------------------------------

/// The numerator over 2^32 of a Stage A value: `%_ConstructDouble` puts the
/// xored lanes' low 20 bits above their high 12 bits, a 12-bit left rotation.
pub open spec fn rot12(r: u32) -> u64 {
    ((r % 0x10_0000) * 0x1000 + r / 0x10_0000) as u64
}

/// The `k`-th Stage A numerator: the `18030` and `36969` lanes xored, rotated.
pub open spec fn stage_a_output(s0: u32, s1: u32, k: nat) -> u64 {
    rot12(lane_iter(s0, MULT0_3D, k) ^ lane_iter(s1, MULT1, k))
}

/// The first `n` Stage A numerators.
pub open spec fn stage_a_outputs(s0: u32, s1: u32, n: nat) -> Seq<u64> {
    Seq::new(n, |k: int| stage_a_output(s0, s1, k as nat))
}

/// The first `n` numerators of the Stage A generator (V8 4.9 development
/// builds, Chrome 48): the MWC lanes `18030`/`36969` xored and placed in the
/// double's mantissa by `%_ConstructDouble`.
pub fn generate_stage_a(s0: u32, s1: u32, n: usize) -> (out: Vec<u64>)
    ensures
        out@ == stage_a_outputs(s0, s1, n as nat),
{
    let mut a = s0;
    let mut b = s1;
    let mut out: Vec<u64> = Vec::new();
    let mut k: usize = 0;
    while k < n
        invariant
            k <= n,
            a == lane_iter(s0, MULT0_3D, k as nat),
            b == lane_iter(s1, MULT1, k as nat),
            out@ == Seq::new(k as nat, |j: int| stage_a_output(s0, s1, j as nat)),
        decreases n - k,
    {
        let r = a ^ b;
        out.push(((r % 0x10_0000) as u64) * 0x1000 + (r / 0x10_0000) as u64);
        a = lane_step(a, MULT0_3D);
        b = lane_step(b, MULT1);
        k = k + 1;
        proof {
            assert(out@ =~= Seq::new(k as nat, |j: int| stage_a_output(s0, s1, j as nat)));
        }
    }
    out
}

/// Check a solver's proposed Stage A lane states `(s0, s1)` against the
/// capture: kept only if they reproduce every observed numerator (the solver
/// is asked about the first eight).
pub fn recover_stage_a(obs: &[u64], s0: u32, s1: u32) -> (r: Option<(u32, u32)>)
    ensures
        r is Some <==> obs.len() >= 8 && stage_a_outputs(s0, s1, obs.len() as nat) == obs@,
        r matches Some(st) ==> st == (s0, s1),
{
    if obs.len() < 8 {
        return None;
    }
    let regen = generate_stage_a(s0, s1, obs.len());
    if same_run(regen.as_slice(), obs) {
        Some((s0, s1))
    } else {
        None
    }
}

} // verus!
