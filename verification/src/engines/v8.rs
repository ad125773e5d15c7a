//! V8 `Math.random()` — Chrome, Edge, Opera, Brave, Node.js.
//!
//! State transition: xorshift128+. Output conversion reads `s0` *after* the
//! step and reinterprets its top 52 bits as the mantissa of a double in
//! `[1, 2)`, then subtracts 1:
//!
//! ```text
//! double = bitcast((s0 >> 12) | 0x3FF0000000000000) - 1.0
//! ```
//!
//! so the double is exactly `(s0 >> 12) / 2^52`; outputs are handled here as
//! that 52-bit numerator.
//!
//! VERSION SPLIT — before Chrome 49 / V8 4.9.41 (late 2015), `Math.random()` was
//! MWC1616 (see `v8_legacy`). From V8 13.5 the conversion keeps one more bit,
//! `(s0 >> 11) / 2^53` ([`generate_53`], [`recover_53`]).
//!
//! THE GOTCHA: V8 does not serve values one-per-step. It refills a cache of
//! [`CACHE_SIZE`] doubles and hands them out **in reverse**. So the JS-observed
//! order within a batch is the reverse of generation order, and batch boundaries
//! appear every [`CACHE_SIZE`] draws. Any state-recovery must account for this.
use vstd::prelude::*;
use crate::engines::{all_close, all_within, lemma_close_self};
use crate::gf2::{bit, dot, dotn, lemma_dot_xor, row_sat, sat_all, solve_128};
use crate::modular::{lemma_powers, lemma_shr_div};
use vstd::arithmetic::power2::{lemma_pow2_pos, lemma_pow2_unfold, pow2};
use vstd::arithmetic::div_mod::lemma_mod_breakdown;
use crate::prng::xorshift128plus::{iterate, step_spec, XorShift128Plus};

verus! {

/// V8's `kCacheSize` for the Math.random cache (`v8/src/numbers/math-random.cc`).
pub const CACHE_SIZE: usize = 64;

/// Largest numerator difference the reproduction checks accept (1e-15 on the
/// 2^-52 grid).
pub const TOL: u64 = 4;

/// 2^52: the denominator of every output here.
pub const P52: u64 = 0x10_0000_0000_0000;

/// Batch size of the V8 5.1–5.3 cache (slots 2..63).
pub const BATCH_5X: usize = 62;

/// The 52-bit numerator V8 makes of a post-step `s0`: its top 52 bits.
pub open spec fn mantissa(s0: u64) -> u64 {
    s0 / 0x1000
}

/// Generation index of the `j`-th served value at batch offset `o`: each batch
/// is generated in order and served in reverse.
pub open spec fn gen_index_spec(o: nat, j: nat) -> nat {
    (((o + j) / 64) * 64 + 63 - (o + j) % 64) as nat
}

/// The first `n` numerators JS observes from `state`, reverse-served in batches
/// of [`CACHE_SIZE`].
pub open spec fn served(state: XorShift128Plus, n: nat) -> Seq<u64> {
    Seq::new(n, |j: int| mantissa(iterate(state, gen_index_spec(0, j as nat) + 1).s0))
}

/// The low 52 bits of the post-step sum, the conversion of V8 4.9–6.x.
pub open spec fn sum_low52(s: XorShift128Plus) -> u64 {
    (s.s0.wrapping_add(s.s1) % P52) as u64
}

/// The first `n` numerators of early 4.9 (Stage B), served in order.
pub open spec fn early_outputs(state: XorShift128Plus, n: nat) -> Seq<u64> {
    Seq::new(n, |k: int| sum_low52(iterate(state, (k + 1) as nat)))
}

/// Generation index of the `j`-th value served by V8 5.1–5.3 (batches of 62,
/// served in reverse).
pub open spec fn gen_index_5x(j: nat) -> nat {
    ((j / 62) * 62 + 61 - j % 62) as nat
}

/// The first `n` numerators of V8 5.1–5.3 from `seed`.
pub open spec fn served_5x(seed: XorShift128Plus, n: nat) -> Seq<u64> {
    Seq::new(n, |j: int| sum_low52(iterate(seed, gen_index_5x(j as nat) + 1)))
}

/// Convert a post-step `s0` to the numerator over 2^52 of the double V8 returns.
pub fn to_double(s0: u64) -> (r: u64)
    ensures
        r == mantissa(s0),
        r < P52,
{
    proof {
        lemma_powers();
        lemma_shr_div(s0, 12);
    }
    s0 >> 12
}

/// Recover the top 52 bits of `s0` from an observed numerator. The low 12 bits
/// of `s0` are discarded by the conversion and cannot be recovered from one
/// output; the returned value has them zeroed.
pub fn s0_high_bits(value: u64) -> (r: u64)
    ensures
        r == (value % P52) * 0x1000,
{
    (value % P52) * 0x1000
}

/// The top 52 bits of `s0` survive the conversion: reading them back from the
/// output gives `s0` with its low 12 bits cleared.
pub proof fn lemma_high_bits_round_trip(s0: u64)
    ensures
        (mantissa(s0) % P52) * 0x1000 == s0 - s0 % 0x1000,
{
    assert(mantissa(s0) < P52);
}

fn step_state(st: XorShift128Plus) -> (r: XorShift128Plus)
    ensures
        r == step_spec(st),
{
    let mut s = st;
    s.next_state();
    s
}

/// One more step of a run.
proof fn lemma_iterate_succ(s: XorShift128Plus, k: nat)
    ensures
        iterate(s, k + 1) == step_spec(iterate(s, k)),
{
}

/// Generate `n` numerators in the order JS observes them (i.e. reverse-served in
/// batches of [`CACHE_SIZE`]), starting from `state`.
pub fn generate(state: XorShift128Plus, n: usize) -> (out: Vec<u64>)
    ensures
        out@ == served(state, n as nat),
{
    let out = generate_with(state, n, 12);
    proof {
        lemma_served_52(state, n as nat);
    }
    out
}

/// Observed index `j` at batch offset `o` maps to generation index: the cache is
/// filled gen[0..63] then served reversed, so serve[k] = gen[63 - (k mod 64)].
pub fn gen_index(o: usize, j: usize) -> (r: usize)
    requires
        o + j <= usize::MAX,
        gen_index_spec(o as nat, j as nat) <= usize::MAX,
    ensures
        r == gen_index_spec(o as nat, j as nat),
{
    let serve = o + j;
    assert((serve / 64) * 64 <= serve) by (nonlinear_arith)
        requires
            serve >= 0,
    ;
    (serve / 64) * 64 + (63 - serve % 64)
}

/// Symbolic left shift: bit `i` takes the symbol of bit `i - n`.
pub open spec fn shl_spec(x: Seq<u128>, n: int) -> Seq<u128> {
    Seq::new(64, |i: int| if i >= n { x[i - n] } else { 0 })
}

/// Symbolic right shift: bit `i` takes the symbol of bit `i + n`.
pub open spec fn shr_spec(x: Seq<u128>, n: int) -> Seq<u128> {
    Seq::new(64, |i: int| if i + n < 64 { x[i + n] } else { 0 })
}

/// Symbolic xor, bit by bit.
pub open spec fn xor_spec(a: Seq<u128>, b: Seq<u128>) -> Seq<u128> {
    Seq::new(64, |i: int| a[i] ^ b[i])
}

/// Symbolic xorshift128+ step with shifts `(a, b, c)`: the new `(s0, s1)`.
pub open spec fn sym_step_spec(s0: Seq<u128>, s1: Seq<u128>, a: int, b: int, c: int) -> (Seq<u128>, Seq<u128>) {
    let t1 = xor_spec(s0, shl_spec(s0, a));
    let t2 = xor_spec(t1, shr_spec(t1, b));
    let t3 = xor_spec(t2, s1);
    (s1, xor_spec(t3, shr_spec(s1, c)))
}

/// Each state bit as the set of seed bits (a 128-bit mask) that xor into it.
pub fn sym_shl(x: &Vec<u128>, n: usize) -> (o: Vec<u128>)
    requires
        x.len() == 64,
        n <= 64,
    ensures
        o@ == shl_spec(x@, n as int),
{
    let mut o: Vec<u128> = Vec::new();
    let mut i: usize = 0;
    while i < 64
        invariant
            i <= 64,
            x.len() == 64,
            o.len() == i,
            forall|k: int| 0 <= k < i ==> o@[k] == (if k >= n { x@[k - n] } else { 0 }),
        decreases 64 - i,
    {
        if i >= n {
            o.push(x[i - n]);
        } else {
            o.push(0);
        }
        i = i + 1;
    }
    assert(o@ =~= shl_spec(x@, n as int));
    o
}

/// Symbolic right shift of a state word.
pub fn sym_shr(x: &Vec<u128>, n: usize) -> (o: Vec<u128>)
    requires
        x.len() == 64,
        n <= 64,
    ensures
        o@ == shr_spec(x@, n as int),
{
    let mut o: Vec<u128> = Vec::new();
    let mut i: usize = 0;
    while i < 64
        invariant
            i <= 64,
            x.len() == 64,
            o.len() == i,
            n <= 64,
            forall|k: int| 0 <= k < i ==> o@[k] == (if k + n < 64 { x@[k + n] } else { 0 }),
        decreases 64 - i,
    {
        if i + n < 64 {
            o.push(x[i + n]);
        } else {
            o.push(0);
        }
        i = i + 1;
    }
    assert(o@ =~= shr_spec(x@, n as int));
    o
}

/// Symbolic xor of two state words.
pub fn sym_xor(a: &Vec<u128>, b: &Vec<u128>) -> (o: Vec<u128>)
    requires
        a.len() == 64,
        b.len() == 64,
    ensures
        o@ == xor_spec(a@, b@),
{
    let mut o: Vec<u128> = Vec::new();
    let mut i: usize = 0;
    while i < 64
        invariant
            i <= 64,
            a.len() == 64,
            b.len() == 64,
            o.len() == i,
            forall|k: int| 0 <= k < i ==> o@[k] == a@[k] ^ b@[k],
        decreases 64 - i,
    {
        o.push(a[i] ^ b[i]);
        i = i + 1;
    }
    assert(o@ =~= xor_spec(a@, b@));
    o
}

/// Symbolic xorshift128+ step with shifts `(a, b, c)`.
pub fn sym_step_shifts(s0: &Vec<u128>, s1: &Vec<u128>, a: usize, b: usize, c: usize) -> (r: (
    Vec<u128>,
    Vec<u128>,
))
    requires
        s0.len() == 64,
        s1.len() == 64,
        a <= 64,
        b <= 64,
        c <= 64,
    ensures
        (r.0@, r.1@) == sym_step_spec(s0@, s1@, a as int, b as int, c as int),
        r.0.len() == 64,
        r.1.len() == 64,
{
    let t = sym_xor(s0, &sym_shl(s0, a));
    let t = sym_xor(&t, &sym_shr(&t, b));
    let t = sym_xor(&t, s1);
    let t = sym_xor(&t, &sym_shr(s1, c));
    (s1.clone(), t)
}

/// Symbolic xorshift128+ step, mirroring [`XorShift128Plus::next_state`].
pub fn sym_step(s0: &Vec<u128>, s1: &Vec<u128>) -> (r: (Vec<u128>, Vec<u128>))
    requires
        s0.len() == 64,
        s1.len() == 64,
    ensures
        (r.0@, r.1@) == sym_step_spec(s0@, s1@, 23, 17, 26),
        r.0.len() == 64,
        r.1.len() == 64,
{
    sym_step_shifts(s0, s1, 23, 17, 26)
}

// ---- the symbolic state is exact ------------------------------------------------

/// Bit `i` of a 64-bit word.
pub open spec fn bit64(v: u64, i: int) -> bool {
    (v >> (i as u64)) & 1 == 1
}

/// A symbolic word (one 128-bit row of seed bits per bit) tracks the word `v`
/// on the seed bits `x`: each bit of `v` is the GF(2) product of its row with
/// `x`.
pub open spec fn tracks(rows: Seq<u128>, x: u128, v: u64) -> bool {
    &&& rows.len() == 64
    &&& forall|i: int| 0 <= i < 64 ==> #[trigger] dot(rows[i], x) == bit64(v, i)
}

/// The symbolic seed word whose bit `i` is seed bit `base + i`.
pub open spec fn seed_rows(base: int) -> Seq<u128> {
    Seq::new(64, |i: int| 1u128 << ((base + i) as u128))
}

/// The state 128 seed bits stand for: the low half is `s0`, the high half `s1`.
pub open spec fn seed_of(x: u128) -> XorShift128Plus {
    XorShift128Plus { s0: x as u64, s1: (x >> 64u128) as u64 }
}

/// The symbolic state after `k` steps from the symbolic seed.
pub open spec fn sym_iter(k: nat) -> (Seq<u128>, Seq<u128>)
    decreases k,
{
    if k == 0 {
        (seed_rows(0), seed_rows(64))
    } else {
        let p = sym_iter((k - 1) as nat);
        sym_step_spec(p.0, p.1, 23, 17, 26)
    }
}

/// The bits of xors and shifts of 64-bit words.
proof fn lemma_word_bits(va: u64, vb: u64, n: u64, i: u64)
    by (bit_vector)
    requires
        n < 64,
        i < 64,
    ensures
        (((va ^ vb) >> i) & 1 == 1) == (((va >> i) & 1 == 1) != ((vb >> i) & 1 == 1)),
        i >= n ==> ((va << n) >> i) & 1 == (va >> ((i - n) as u64)) & 1,
        i < n ==> ((va << n) >> i) & 1 == 0,
        i + n < 64 ==> ((va >> n) >> i) & 1 == (va >> ((i + n) as u64)) & 1,
        i + n >= 64 ==> ((va >> n) >> i) & 1 == 0,
        (va >> i) & 1 == (va >> i) % 2,
{
}

/// A single set bit, and the two halves of a 128-bit word.
proof fn lemma_wide_bits(x: u128, j: u128, k: u128)
    by (bit_vector)
    requires
        j < 128,
        k < 64,
    ensures
        (((1u128 << j) >> k) & 1 == 1) == (k == j),
        (((1u128 << j) >> (k + 64)) & 1 == 1) == (k + 64 == j),
        ((x >> k) & 1 == 1) == (((x as u64) >> (k as u64)) & 1 == 1),
        ((x >> (k + 64)) & 1 == 1) == ((((x >> 64u128) as u64) >> (k as u64)) & 1 == 1),
        ((0u128 >> j) & 1 == 1) == false,
{
}

proof fn lemma_dot_zero(x: u128, n: nat)
    requires
        n <= 128,
    ensures
        !dotn(0, x, n),
    decreases n,
{
    if n > 0 {
        lemma_dot_zero(x, (n - 1) as nat);
        lemma_wide_bits(x, (n - 1) as u128, 0);
    }
}
/// The product of a row holding one seed bit is that seed bit.
proof fn lemma_dot_single(x: u128, j: u128, n: nat)
    requires
        j < 128,
        n <= 128,
    ensures
        dotn(1u128 << j, x, n) == (j < n && bit(x, j)),
    decreases n,
{
    if n > 0 {
        lemma_dot_single(x, j, (n - 1) as nat);
        let k = (n - 1) as u128;
        if k < 64 {
            lemma_wide_bits(x, j, k);
        } else {
            lemma_wide_bits(x, j, (k - 64) as u128);
        }
    }
}

/// Xoring tracked words tracks their xor.
proof fn lemma_tracks_xor(a: Seq<u128>, b: Seq<u128>, x: u128, va: u64, vb: u64)
    requires
        tracks(a, x, va),
        tracks(b, x, vb),
    ensures
        tracks(xor_spec(a, b), x, va ^ vb),
{
    assert forall|i: int| 0 <= i < 64 implies #[trigger] dot(xor_spec(a, b)[i], x) == bit64(va ^ vb, i) by {
        lemma_dot_xor(a[i], b[i], x, 128);
        lemma_word_bits(va, vb, 0, i as u64);
        assert(dot(a[i], x) == bit64(va, i));
        assert(dot(b[i], x) == bit64(vb, i));
    }
}

/// Shifting a tracked word tracks its shift.
proof fn lemma_tracks_shifts(a: Seq<u128>, x: u128, va: u64, n: u64)
    requires
        tracks(a, x, va),
        n < 64,
    ensures
        tracks(shl_spec(a, n as int), x, va << n),
        tracks(shr_spec(a, n as int), x, va >> n),
{
    lemma_dot_zero(x, 128);
    assert forall|i: int| 0 <= i < 64 implies #[trigger] dot(shl_spec(a, n as int)[i], x) == bit64(va << n, i) by {
        lemma_word_bits(va, 0, n, i as u64);
        if i >= n {
            assert(dot(a[i - n], x) == bit64(va, i - n));
        }
    }
    assert forall|i: int| 0 <= i < 64 implies #[trigger] dot(shr_spec(a, n as int)[i], x) == bit64(va >> n, i) by {
        lemma_word_bits(va, 0, n, i as u64);
        if i + n < 64 {
            assert(dot(a[i + n], x) == bit64(va, i + n));
        }
    }
}

/// A symbolic step of a tracked state tracks the concrete step.
pub proof fn lemma_tracks_step(r0: Seq<u128>, r1: Seq<u128>, x: u128, s: XorShift128Plus)
    requires
        tracks(r0, x, s.s0),
        tracks(r1, x, s.s1),
    ensures
        tracks(sym_step_spec(r0, r1, 23, 17, 26).0, x, step_spec(s).s0),
        tracks(sym_step_spec(r0, r1, 23, 17, 26).1, x, step_spec(s).s1),
{
    let a = s.s0;
    let b = s.s1;
    lemma_tracks_shifts(r0, x, a, 23);
    let t1 = xor_spec(r0, shl_spec(r0, 23));
    lemma_tracks_xor(r0, shl_spec(r0, 23), x, a, a << 23u64);
    let v1 = a ^ (a << 23u64);
    lemma_tracks_shifts(t1, x, v1, 17);
    let t2 = xor_spec(t1, shr_spec(t1, 17));
    lemma_tracks_xor(t1, shr_spec(t1, 17), x, v1, v1 >> 17u64);
    let v2 = v1 ^ (v1 >> 17u64);
    let t3 = xor_spec(t2, r1);
    lemma_tracks_xor(t2, r1, x, v2, b);
    lemma_tracks_shifts(r1, x, b, 26);
    lemma_tracks_xor(t3, shr_spec(r1, 26), x, v2 ^ b, b >> 26u64);
}

/// Two words with the same low `n` bits agree modulo 2^n.
proof fn lemma_low_bits_eq(a: u64, c: u64, n: nat)
    requires
        n < 64,
        forall|b: int| 0 <= b < n ==> #[trigger] bit64(a, b) == bit64(c, b),
    ensures
        (a as nat) % pow2(n) == (c as nat) % pow2(n),
    decreases n,
{
    if n == 0 {
        lemma_powers();
        assert(pow2(0) == 1) by {
            vstd::arithmetic::power2::lemma2_to64();
        }
    } else {
        let k = (n - 1) as nat;
        lemma_low_bits_eq(a, c, k);
        lemma_pow2_unfold(n);
        lemma_pow2_pos(k);
        let p = pow2(k) as int;
        lemma_mod_breakdown(a as int, p, 2);
        lemma_mod_breakdown(c as int, p, 2);
        lemma_shr_div(a, k as u64);
        lemma_shr_div(c, k as u64);
        lemma_word_bits(a, c, 0, k as u64);
        lemma_word_bits(c, a, 0, k as u64);
        assert(bit64(a, k as int) == bit64(c, k as int));
        let qa = (a as int) / p;
        let qc = (c as int) / p;
        assert((a >> (k as u64)) as int == qa);
        assert((c >> (k as u64)) as int == qc);
        assert(qa % 2 == qc % 2);
        assert(p * 2 == pow2(n));
        assert((a as int) % (p * 2) == p * (qa % 2) + (a as int) % p);
        assert((c as int) % (p * 2) == p * (qc % 2) + (c as int) % p);
    }
}

/// The 128 bits of a state: `s0` low, `s1` high.
pub open spec fn state_bits(s: XorShift128Plus) -> u128 {
    (s.s0 as u128) | ((s.s1 as u128) << 64u128)
}

proof fn lemma_state_bits(a: u64, b: u64)
    by (bit_vector)
    ensures
        (((a as u128) | ((b as u128) << 64u128)) as u64) == a,
        ((((a as u128) | ((b as u128) << 64u128)) >> 64u128) as u64) == b,
{
}

/// The symbolic state is exact: after any number of steps, every bit of the
/// state of any seed is the GF(2) product of its symbolic row with the seed's
/// 128 bits. This is what makes the linear recovery of a state possible.
pub proof fn lemma_symbolic_state_exact(x: u128, k: nat)
    ensures
        tracks(sym_iter(k).0, x, iterate(seed_of(x), k).s0),
        tracks(sym_iter(k).1, x, iterate(seed_of(x), k).s1),
    decreases k,
{
    if k == 0 {
        assert forall|i: int| 0 <= i < 64 implies #[trigger] dot(seed_rows(0)[i], x) == bit64(seed_of(x).s0, i) by {
            lemma_dot_single(x, i as u128, 128);
            lemma_wide_bits(x, i as u128, i as u128);
        }
        assert forall|i: int| 0 <= i < 64 implies #[trigger] dot(seed_rows(64)[i], x) == bit64(seed_of(x).s1, i) by {
            lemma_dot_single(x, (64 + i) as u128, 128);
            lemma_wide_bits(x, (64 + i) as u128, i as u128);
        }
    } else {
        lemma_symbolic_state_exact(x, (k - 1) as nat);
        let p = sym_iter((k - 1) as nat);
        lemma_tracks_step(p.0, p.1, x, iterate(seed_of(x), (k - 1) as nat));
    }
}

// ---- xorshift128+ with any shifts ------------------------------------------------

/// One xorshift128+ step with shifts `(a, b, c)`.
pub open spec fn step_with(s: XorShift128Plus, a: u64, b: u64, c: u64) -> XorShift128Plus {
    let x = s.s0 ^ (s.s0 << a);
    let x = x ^ (x >> b);
    XorShift128Plus { s0: s.s1, s1: x ^ s.s1 ^ (s.s1 >> c) }
}

/// `k` steps with shifts `(a, b, c)`.
pub open spec fn iterate_with(s: XorShift128Plus, a: u64, b: u64, c: u64, k: nat) -> XorShift128Plus
    decreases k,
{
    if k == 0 {
        s
    } else {
        step_with(iterate_with(s, a, b, c, (k - 1) as nat), a, b, c)
    }
}

/// The symbolic state after `k` steps with shifts `(a, b, c)`.
pub open spec fn sym_iter_with(k: nat, a: int, b: int, c: int) -> (Seq<u128>, Seq<u128>)
    decreases k,
{
    if k == 0 {
        (seed_rows(0), seed_rows(64))
    } else {
        let p = sym_iter_with((k - 1) as nat, a, b, c);
        sym_step_spec(p.0, p.1, a, b, c)
    }
}

/// With V8's shifts, the steps are those of [`iterate`].
pub proof fn lemma_iterate_with_std(s: XorShift128Plus, k: nat)
    ensures
        iterate_with(s, 23, 17, 26, k) == iterate(s, k),
    decreases k,
{
    if k > 0 {
        lemma_iterate_with_std(s, (k - 1) as nat);
    }
}

/// A symbolic step with shifts `(a, b, c)` of a tracked state tracks the step.
pub proof fn lemma_tracks_step_with(r0: Seq<u128>, r1: Seq<u128>, x: u128, s: XorShift128Plus, a: u64, b: u64, c: u64)
    requires
        tracks(r0, x, s.s0),
        tracks(r1, x, s.s1),
        a < 64,
        b < 64,
        c < 64,
    ensures
        tracks(sym_step_spec(r0, r1, a as int, b as int, c as int).0, x, step_with(s, a, b, c).s0),
        tracks(sym_step_spec(r0, r1, a as int, b as int, c as int).1, x, step_with(s, a, b, c).s1),
{
    let va = s.s0;
    let vb = s.s1;
    lemma_tracks_shifts(r0, x, va, a);
    let t1 = xor_spec(r0, shl_spec(r0, a as int));
    lemma_tracks_xor(r0, shl_spec(r0, a as int), x, va, va << a);
    let v1 = va ^ (va << a);
    lemma_tracks_shifts(t1, x, v1, b);
    let t2 = xor_spec(t1, shr_spec(t1, b as int));
    lemma_tracks_xor(t1, shr_spec(t1, b as int), x, v1, v1 >> b);
    let v2 = v1 ^ (v1 >> b);
    let t3 = xor_spec(t2, r1);
    lemma_tracks_xor(t2, r1, x, v2, vb);
    lemma_tracks_shifts(r1, x, vb, c);
    lemma_tracks_xor(t3, shr_spec(r1, c as int), x, v2 ^ vb, vb >> c);
}

/// The symbolic state with shifts `(a, b, c)` is exact.
pub proof fn lemma_symbolic_state_exact_with(x: u128, k: nat, a: u64, b: u64, c: u64)
    requires
        a < 64,
        b < 64,
        c < 64,
    ensures
        tracks(sym_iter_with(k, a as int, b as int, c as int).0, x, iterate_with(seed_of(x), a, b, c, k).s0),
        tracks(sym_iter_with(k, a as int, b as int, c as int).1, x, iterate_with(seed_of(x), a, b, c, k).s1),
    decreases k,
{
    if k == 0 {
        lemma_symbolic_state_exact(x, 0);
    } else {
        lemma_symbolic_state_exact_with(x, (k - 1) as nat, a, b, c);
        let p = sym_iter_with((k - 1) as nat, a as int, b as int, c as int);
        lemma_tracks_step_with(p.0, p.1, x, iterate_with(seed_of(x), a, b, c, (k - 1) as nat), a, b, c);
    }
}

/// Each of the 52 bits `s0 >> 12` keeps after `k` steps with shifts
/// `(a, b, c)` is the GF(2) product of the symbolic row of `s0`'s bit `12 + i`
/// with the seed's 128 bits.
pub proof fn lemma_mantissa_bits_with(x: u128, k: nat, i: int, a: u64, b: u64, c: u64)
    requires
        0 <= i < 52,
        a < 64,
        b < 64,
        c < 64,
    ensures
        dot(sym_iter_with(k, a as int, b as int, c as int).0[12 + i], x) == bit64(
            mantissa(iterate_with(seed_of(x), a, b, c, k).s0),
            i,
        ),
{
    lemma_symbolic_state_exact_with(x, k, a, b, c);
    let v = iterate_with(seed_of(x), a, b, c, k).s0;
    lemma_word_bits(v, 0, 12, i as u64);
    lemma_top_shift(v, 12);
    assert(dot(sym_iter_with(k, a as int, b as int, c as int).0[12 + i], x) == bit64(v, 12 + i));
}

/// Two 52-bit numerators with the same 52 bits are equal.
pub proof fn lemma_bits_agree_52(v: u64, u: u64)
    requires
        v < P52,
        u < P52,
        forall|i: int| 0 <= i < 52 ==> #[trigger] bit64(v, i) == bit64(u, i),
    ensures
        v == u,
{
    lemma_low_bits_eq(v, u, 52);
    vstd::arithmetic::power2::lemma2_to64_rest();
    vstd::arithmetic::div_mod::lemma_small_mod(v as nat, P52 as nat);
    vstd::arithmetic::div_mod::lemma_small_mod(u as nat, P52 as nat);
}

/// The 128 bits of a state stand for that state.
pub proof fn lemma_seed_of_state_bits(s: XorShift128Plus)
    ensures
        seed_of(state_bits(s)) == s,
{
    lemma_state_bits(s.s0, s.s1);
}

/// The numerator a post-step `s0` gives when its top `64 - sh` bits are kept:
/// 52 bits (`sh` 12) before V8 13.5, 53 bits (`sh` 11) from it on.
pub open spec fn top(s0: u64, sh: u64) -> u64 {
    if sh == 11 {
        s0 / 0x800
    } else {
        s0 / 0x1000
    }
}

/// How many numerators the top `64 - sh` bits can make: 2^53 or 2^52.
pub open spec fn span(sh: u64) -> u64 {
    if sh == 11 {
        0x20_0000_0000_0000
    } else {
        P52
    }
}

/// The first `n` numerators JS observes from `state` when each keeps the top
/// `64 - sh` bits of `s0`, reverse-served in batches of [`CACHE_SIZE`].
pub open spec fn served_with(state: XorShift128Plus, n: nat, sh: u64) -> Seq<u64> {
    Seq::new(n, |j: int| top(iterate(state, gen_index_spec(0, j as nat) + 1).s0, sh))
}

/// The kept bits of `s0`, as a shift.
proof fn lemma_top_shift(v: u64, sh: u64)
    requires
        sh == 11 || sh == 12,
    ensures
        top(v, sh) == v >> sh,
        top(v, sh) < span(sh),
{
    lemma_shr_div(v, sh);
    lemma_powers();
    assert(v / 0x800 < 0x20_0000_0000_0000 && v / 0x1000 < P52) by (nonlinear_arith)
        requires
            v <= u64::MAX,
    ;
}

/// How many observed values recovery sets equations for.
pub open spec fn eq_count(n: nat) -> nat {
    if n < 60 {
        n
    } else {
        60
    }
}

/// The equation recovery sets for bit `b` of observed value `j` at batch
/// offset `o`, when values keep the top `64 - sh` bits: the symbolic row of
/// that bit of the generated state, and the observed bit.
pub open spec fn equation_with(obs: Seq<u64>, o: nat, j: nat, b: nat, sh: u64) -> (u128, u8) {
    (sym_iter(gen_index_spec(o, j) + 1).0[sh + b as int], (((obs[j as int] % span(sh)) >> (b as u64)) % 2) as u8)
}

/// `s` at offset `o` is the only state whose served values agree with the
/// first observed values that recovery sets equations for.
pub open spec fn determined_with(s: XorShift128Plus, o: nat, obs: Seq<u64>, sh: u64) -> bool {
    let m = eq_count(obs.len());
    forall|t: XorShift128Plus|
        #[trigger] served_with(t, o + m, sh).subrange(o as int, (o + m) as int) == obs.take(m as int) ==> t == s
}

/// The capture is the run served by `s` from batch offset `o`.
pub open spec fn serves_with(s: XorShift128Plus, o: nat, obs: Seq<u64>, sh: u64) -> bool {
    &&& o < CACHE_SIZE
    &&& served_with(s, o + obs.len(), sh).subrange(o as int, (o + obs.len()) as int) == obs
}

/// `s` at offset `o` is the only state whose 52-bit values agree with the
/// first observed values that recovery sets equations for.
pub open spec fn determined(s: XorShift128Plus, o: nat, obs: Seq<u64>) -> bool {
    determined_with(s, o, obs, 12)
}

/// The capture is the 52-bit run served by `s` from batch offset `o`.
pub open spec fn serves(s: XorShift128Plus, o: nat, obs: Seq<u64>) -> bool {
    serves_with(s, o, obs, 12)
}

/// The 52-bit runs are the ones [`served`] describes.
proof fn lemma_served_52(state: XorShift128Plus, n: nat)
    ensures
        served_with(state, n, 12) == served(state, n),
{
    assert(served_with(state, n, 12) =~= served(state, n));
}

/// Every bit a value keeps is linear in the seed: the GF(2) product of the
/// symbolic row of `s0`'s bit `sh + b` with the seed's 128 bits.
pub proof fn lemma_kept_bits_linear(x: u128, k: nat, b: int, sh: u64)
    requires
        sh == 11 || sh == 12,
        0 <= b < 64 - sh,
    ensures
        dot(sym_iter(k).0[sh + b], x) == bit64(top(iterate(seed_of(x), k).s0, sh), b),
{
    lemma_symbolic_state_exact(x, k);
    let v = iterate(seed_of(x), k).s0;
    lemma_word_bits(v, 0, sh, b as u64);
    lemma_top_shift(v, sh);
    assert(dot(sym_iter(k).0[sh + b], x) == bit64(v, sh + b));
}

/// The equations hold of the state bits of the state that serves the capture.
proof fn lemma_true_state_solves(s: XorShift128Plus, o: nat, obs: Seq<u64>, j: nat, b: nat, sh: u64)
    requires
        sh == 11 || sh == 12,
        serves_with(s, o, obs, sh),
        j < obs.len(),
        b < 64 - sh,
    ensures
        row_sat(equation_with(obs, o, j, b, sh), state_bits(s)),
{
    let x = state_bits(s);
    lemma_state_bits(s.s0, s.s1);
    assert(seed_of(x) == s);
    let g = gen_index_spec(o, j);
    lemma_kept_bits_linear(x, g + 1, b as int, sh);
    let v = top(iterate(s, g + 1).s0, sh);
    assert(obs[j as int] == served_with(s, o + obs.len(), sh)[(o + j) as int]);
    assert(gen_index_spec(0, o + j) == g);
    assert(obs[j as int] == v);
    lemma_top_shift(iterate(s, g + 1).s0, sh);
    assert(v < span(sh));
    lemma_word_bits(v, 0, 0, b as u64);
}

/// A state that solves the equations of the first values serves them.
proof fn lemma_solution_serves(obs: Seq<u64>, o: nat, rows: Seq<(u128, u8)>, x: u128, sh: u64)
    requires
        sh == 11 || sh == 12,
        o < CACHE_SIZE,
        rows.len() == eq_count(obs.len()) * (64 - sh),
        forall|k: int|
            0 <= k < rows.len() ==> #[trigger] rows[k] == equation_with(
                obs,
                o,
                (k / (64 - sh) as int) as nat,
                (k % (64 - sh) as int) as nat,
                sh,
            ),
        forall|j: int| 0 <= j < obs.len() ==> #[trigger] obs[j] < span(sh),
        sat_all(rows, x),
    ensures
        served_with(seed_of(x), o + eq_count(obs.len()), sh).subrange(
            o as int,
            (o + eq_count(obs.len())) as int,
        ) == obs.take(eq_count(obs.len()) as int),
{
    let m = eq_count(obs.len());
    let t = seed_of(x);
    let w = (64 - sh) as int;
    assert forall|j: int| 0 <= j < m implies #[trigger] served_with(t, o + m, sh).subrange(
        o as int,
        (o + m) as int,
    )[j] == obs.take(m as int)[j] by {
        let g = gen_index_spec(o, j as nat);
        let v = top(iterate(t, g + 1).s0, sh);
        let u = obs[j] % span(sh);
        assert forall|b: int| 0 <= b < w implies #[trigger] bit64(v, b) == bit64(u, b) by {
            let k = j * w + b;
            assert(k / w == j && k % w == b) by (nonlinear_arith)
                requires
                    k == j * w + b,
                    0 <= b < w,
                    0 <= j,
            ;
            assert(0 <= k < rows.len()) by (nonlinear_arith)
                requires
                    k == j * w + b,
                    0 <= b < w,
                    0 <= j < m,
                    rows.len() == m * w,
            ;
            assert(row_sat(rows[k], x));
            lemma_kept_bits_linear(x, g + 1, b, sh);
            lemma_word_bits(u, 0, 0, b as u64);
        }
        lemma_low_bits_eq(v, u, w as nat);
        vstd::arithmetic::power2::lemma2_to64_rest();
        lemma_top_shift(iterate(t, g + 1).s0, sh);
        assert(pow2(w as nat) == span(sh));
        assert(gen_index_spec(0, (o + j) as nat) == g);
        vstd::arithmetic::div_mod::lemma_small_mod(obs[j] as nat, span(sh) as nat);
        assert(u == obs[j]);
        vstd::arithmetic::div_mod::lemma_small_mod(v as nat, span(sh) as nat);
        vstd::arithmetic::div_mod::lemma_small_mod(u as nat, span(sh) as nat);
        assert(v == u);
    }
    assert(served_with(t, o + m, sh).subrange(o as int, (o + m) as int) =~= obs.take(m as int));
}

/// The first `n` numerators, keeping the top `64 - sh` bits of each
/// post-step `s0`, in the order JS observes them.
fn generate_with(state: XorShift128Plus, n: usize, sh: u64) -> (out: Vec<u64>)
    requires
        sh == 11 || sh == 12,
    ensures
        out@ == served_with(state, n as nat, sh),
{
    let mut st = state;
    let mut out: Vec<u64> = Vec::new();
    let mut b: usize = 0;
    while out.len() < n
        invariant
            sh == 11 || sh == 12,
            out.len() <= n,
            out.len() < n ==> out.len() == 64 * b,
            st == iterate(state, 64 * b as nat),
            out@ == served_with(state, out.len() as nat, sh),
        decreases n - out.len(),
    {
        let mut cache: Vec<u64> = Vec::new();
        let mut i: usize = 0;
        while i < CACHE_SIZE
            invariant
                i <= 64,
                cache.len() == i,
                st == iterate(state, (64 * b + i) as nat),
                forall|k: int| 0 <= k < i ==> cache@[k] == iterate(state, (64 * b + k + 1) as nat).s0,
            decreases 64 - i,
        {
            proof {
                lemma_iterate_succ(state, (64 * b + i) as nat);
            }
            st = step_state(st);
            cache.push(st.s0);
            i = i + 1;
        }
        let mut p: usize = 0;
        while p < CACHE_SIZE && out.len() < n
            invariant
                sh == 11 || sh == 12,
                p <= 64,
                out.len() <= n,
                out.len() == 64 * b + p,
                cache.len() == 64,
                forall|k: int| 0 <= k < 64 ==> cache@[k] == iterate(state, (64 * b + k + 1) as nat).s0,
                out@ == served_with(state, out.len() as nat, sh),
            decreases 64 - p,
        {
            let v = cache[63 - p] >> sh;
            proof {
                lemma_top_shift(cache[63 - p], sh);
                let j = (64 * b + p) as nat;
                assert(j / 64 == b && j % 64 == p) by (nonlinear_arith)
                    requires
                        j == 64 * b + p,
                        p < 64,
                ;
                assert(gen_index_spec(0, j) == 64 * b + 63 - p);
            }
            out.push(v);
            p = p + 1;
            proof {
                assert(out@ =~= served_with(state, out.len() as nat, sh));
            }
        }
        b = b + 1;
    }
    out
}

/// Recover the seed and batch offset of a capture whose values keep the top
/// `64 - sh` bits of `s0`: for each offset, solve the GF(2) system of the
/// first values' bits and keep the solution only if it reproduces every value
/// within `tol`.
#[verifier::rlimit(30)]
fn recover_with(obs: &[u64], sh: u64, tol: u64) -> (r: Option<(XorShift128Plus, usize)>)
    requires
        sh == 11 || sh == 12,
        obs.len() + CACHE_SIZE <= usize::MAX,
    ensures
        obs.len() < 8 ==> r is None,
        r matches Some(res) ==> res.1 < CACHE_SIZE && all_close(
            served_with(res.0, (res.1 + obs.len()) as nat, sh).subrange(
                res.1 as int,
                (res.1 + obs.len()) as int,
            ),
            obs@,
            tol,
        ),
        obs.len() >= 8 && (exists|s: XorShift128Plus, o: nat|
            serves_with(s, o, obs@, sh) && #[trigger] determined_with(s, o, obs@, sh)) ==> r is Some,
{
    if obs.len() < 8 {
        return None;
    }
    let w: usize = (64 - sh) as usize;
    let span_x: u64 = if sh == 11 {
        0x20_0000_0000_0000
    } else {
        P52
    };
    // Symbolic s0 after (g+1) steps, for 3 batches' worth of generation indices.
    let mut s0: Vec<u128> = Vec::new();
    let mut s1: Vec<u128> = Vec::new();
    let mut i: usize = 0;
    while i < 64
        invariant
            i <= 64,
            s0.len() == i,
            s1.len() == i,
            forall|k: int| 0 <= k < i ==> s0@[k] == #[trigger] seed_rows(0)[k],
            forall|k: int| 0 <= k < i ==> s1@[k] == #[trigger] seed_rows(64)[k],
        decreases 64 - i,
    {
        s0.push(1u128 << i);
        s1.push(1u128 << (64 + i));
        i = i + 1;
    }
    assert(s0@ =~= sym_iter(0).0);
    assert(s1@ =~= sym_iter(0).1);
    let mut sym_for_gen: Vec<Vec<u128>> = Vec::new();
    let mut g: usize = 0;
    while g < 192
        invariant
            g <= 192,
            s0.len() == 64,
            s1.len() == 64,
            s0@ == sym_iter(g as nat).0,
            s1@ == sym_iter(g as nat).1,
            sym_for_gen.len() == g,
            forall|k: int| 0 <= k < g ==> (#[trigger] sym_for_gen@[k])@ == sym_iter((k + 1) as nat).0,
            forall|k: int| 0 <= k < g ==> (#[trigger] sym_for_gen@[k]).len() == 64,
        decreases 192 - g,
    {
        let (n0, n1) = sym_step(&s0, &s1);
        s0 = n0;
        s1 = n1;
        let c = s0.clone();
        assert(c@ =~= s0@);
        sym_for_gen.push(c);
        g = g + 1;
    }
    let n_eq = if obs.len() < 60 {
        obs.len()
    } else {
        60
    };
    let ghost found = exists|s: XorShift128Plus, o: nat|
        serves_with(s, o, obs@, sh) && #[trigger] determined_with(s, o, obs@, sh);
    let ghost (ws, wo) = choose|s: XorShift128Plus, o: nat|
        serves_with(s, o, obs@, sh) && #[trigger] determined_with(s, o, obs@, sh);
    let mut o: usize = 0;
    while o < CACHE_SIZE
        invariant
            sh == 11 || sh == 12,
            w == 64 - sh,
            span_x == span(sh),
            o <= 64,
            n_eq == eq_count(obs.len() as nat),
            n_eq <= obs.len(),
            n_eq <= 60,
            obs.len() >= 8,
            obs.len() + 64 <= usize::MAX,
            sym_for_gen.len() == 192,
            forall|k: int| 0 <= k < 192 ==> (#[trigger] sym_for_gen@[k])@ == sym_iter((k + 1) as nat).0,
            forall|k: int| 0 <= k < 192 ==> (#[trigger] sym_for_gen@[k]).len() == 64,
            found ==> serves_with(ws, wo, obs@, sh) && determined_with(ws, wo, obs@, sh),
            found ==> o <= wo,
        decreases 64 - o,
    {
        let mut rows: Vec<(u128, u8)> = Vec::new();
        let mut j: usize = 0;
        while j < n_eq
            invariant
                sh == 11 || sh == 12,
                w == 64 - sh,
                span_x == span(sh),
                j <= n_eq,
                n_eq <= obs.len(),
                n_eq <= 60,
                o < 64,
                obs.len() + 64 <= usize::MAX,
                sym_for_gen.len() == 192,
                forall|k: int| 0 <= k < 192 ==> (#[trigger] sym_for_gen@[k])@ == sym_iter((k + 1) as nat).0,
                forall|k: int| 0 <= k < 192 ==> (#[trigger] sym_for_gen@[k]).len() == 64,
                rows.len() == j * w,
                forall|k: int|
                    0 <= k < rows.len() ==> #[trigger] rows@[k] == equation_with(
                        obs@,
                        o as nat,
                        (k / w as int) as nat,
                        (k % w as int) as nat,
                        sh,
                    ),
                forall|k: int| 0 <= k < rows.len() ==> #[trigger] rows@[k].1 <= 1,
            decreases n_eq - j,
        {
            let g = gen_index(o, j);
            assert(g < 192);
            let m = obs[j] % span_x;
            let mut bit: usize = 0;
            while bit < w
                invariant
                    sh == 11 || sh == 12,
                    w == 64 - sh,
                    bit <= w,
                    j < n_eq,
                    n_eq <= obs.len(),
                    g < 192,
                    g == gen_index_spec(o as nat, j as nat),
                    m == obs@[j as int] % span(sh),
                    sym_for_gen.len() == 192,
                    forall|k: int| 0 <= k < 192 ==> (#[trigger] sym_for_gen@[k])@ == sym_iter((k + 1) as nat).0,
                    forall|k: int| 0 <= k < 192 ==> (#[trigger] sym_for_gen@[k]).len() == 64,
                    rows.len() == j * w + bit,
                    forall|k: int|
                        0 <= k < rows.len() ==> #[trigger] rows@[k] == equation_with(
                            obs@,
                            o as nat,
                            (k / w as int) as nat,
                            (k % w as int) as nat,
                            sh,
                        ),
                    forall|k: int| 0 <= k < rows.len() ==> #[trigger] rows@[k].1 <= 1,
                decreases w - bit,
            {
                rows.push((sym_for_gen[g][sh as usize + bit], ((m >> (bit as u64)) % 2) as u8));
                proof {
                    let k = j * w + bit;
                    assert(k / (w as int) == j && k % (w as int) == bit) by (nonlinear_arith)
                        requires
                            k == j * w + bit,
                            bit < w,
                    ;
                }
                bit = bit + 1;
            }
            assert((j + 1) * w == j * w + w) by (nonlinear_arith);
            j = j + 1;
        }
        proof {
            if found && o == wo {
                let x0 = state_bits(ws);
                assert forall|k: int| 0 <= k < rows.len() implies #[trigger] row_sat(rows@[k], x0) by {
                    let jj = k / (w as int);
                    let bb = k % (w as int);
                    assert(jj < n_eq && 0 <= bb < w) by (nonlinear_arith)
                        requires
                            0 <= k < n_eq * w,
                            jj == k / (w as int),
                            bb == k % (w as int),
                            w > 0,
                    ;
                    lemma_true_state_solves(ws, wo, obs@, jj as nat, bb as nat, sh);
                }
                assert(sat_all(rows@, x0));
            }
        }
        match solve_128(rows) {
            None => {},
            Some(sol) => {
                let seed = XorShift128Plus::new(#[verifier::truncate] (sol as u64), #[verifier::truncate] ((sol >> 64u32) as u64));
                let regen = generate_with(seed, o + obs.len(), sh);
                let tail = &regen.as_slice()[o..o + obs.len()];
                proof {
                    if found && o == wo {
                        assert forall|jj: int| 0 <= jj < obs.len() implies #[trigger] obs@[jj] < span(sh) by {
                            assert(obs@[jj] == served_with(ws, (wo + obs.len()) as nat, sh)[wo + jj]);
                            lemma_top_shift(
                                iterate(ws, gen_index_spec(0, (wo + jj) as nat) + 1).s0,
                                sh,
                            );
                        }
                        lemma_solution_serves(obs@, o as nat, rows@, sol, sh);
                        assert(seed == seed_of(sol));
                        assert(seed == ws);
                        assert(tail@ =~= obs@);
                        lemma_close_self(obs@, tol);
                    }
                }
                if all_within(tail, obs, tol) {
                    return Some((seed, o));
                }
            },
        }
        o = o + 1;
    }
    None
}

/// `(s, o)` is the only seed and batch offset whose served 52-bit values are
/// within [`TOL`] of the capture.
pub open spec fn pinned(s: XorShift128Plus, o: nat, obs: Seq<u64>) -> bool {
    forall|t: XorShift128Plus, q: nat|
        q < CACHE_SIZE && #[trigger] all_close(served(t, q + obs.len()).subrange(q as int, (q + obs.len()) as int), obs, TOL)
            ==> t == s && q == o
}

/// `(s, o)` is the only seed and batch offset whose served 53-bit values are
/// within [`TOL_53`] of the capture.
pub open spec fn pinned_53(s: XorShift128Plus, o: nat, obs: Seq<u64>) -> bool {
    forall|t: XorShift128Plus, q: nat|
        q < CACHE_SIZE && #[trigger] all_close(
            served_53(t, q + obs.len()).subrange(q as int, (q + obs.len()) as int),
            obs,
            TOL_53,
        ) ==> t == s && q == o
}

/// Recover the seed state and batch offset from observed numerators. Returns
/// `(seed, offset)` such that `generate(seed, offset + obs.len())` reproduces the
/// capture after dropping the first `offset` served values. Verified by full
/// reproduction, so a `Some` result is conclusive; and whenever the capture is
/// served by a state that its first values determine, it is found.
pub fn recover(obs: &[u64]) -> (r: Option<(XorShift128Plus, usize)>)
    requires
        obs.len() + CACHE_SIZE <= usize::MAX,
    ensures
        obs.len() < 8 ==> r is None,
        r matches Some(res) ==> res.1 < CACHE_SIZE && all_close(
            served(res.0, (res.1 + obs.len()) as nat).subrange(res.1 as int, (res.1 + obs.len()) as int),
            obs@,
            TOL,
        ),
        obs.len() >= 8 && (exists|s: XorShift128Plus, o: nat|
            serves(s, o, obs@) && #[trigger] determined(s, o, obs@)) ==> r is Some,
        forall|s: XorShift128Plus, o: nat|
            obs.len() >= 8 && serves(s, o, obs@) && determined(s, o, obs@) && #[trigger] pinned(s, o, obs@) ==> r == Some(
                (s, o as usize),
            ),
{
    let r = recover_with(obs, 12, TOL);
    proof {
        if let Some(res) = r {
            lemma_served_52(res.0, (res.1 + obs.len()) as nat);
        }
        if exists|s: XorShift128Plus, o: nat| serves(s, o, obs@) && #[trigger] determined(s, o, obs@) {
            let (s, o) = choose|s: XorShift128Plus, o: nat| serves(s, o, obs@) && #[trigger] determined(s, o, obs@);
            assert(serves_with(s, o, obs@, 12) && determined_with(s, o, obs@, 12));
        }
    }
    r
}

// --- V8 13.5+ (Chrome ~135-143): the same generator, 53-bit conversion -------
// `ToDouble` became `(s0 >> 11) / 2^53`: one more bit of `s0` is kept, the map
// stays linear in the state, and the reversed cache of 64 is unchanged.

/// Largest numerator difference the 53-bit reproduction check accepts (1e-15
/// on the 2^-53 grid).
pub const TOL_53: u64 = 9;

/// The first `n` 53-bit numerators JS observes from `state` under V8 13.5+.
pub open spec fn served_53(state: XorShift128Plus, n: nat) -> Seq<u64> {
    served_with(state, n, 11)
}

/// Generate `n` numerators over 2^53 (the top 53 bits of each post-step `s0`)
/// in the order JS observes them, starting from `state`.
pub fn generate_53(state: XorShift128Plus, n: usize) -> (out: Vec<u64>)
    ensures
        out@ == served_53(state, n as nat),
{
    generate_with(state, n, 11)
}

/// Recover the seed state and batch offset of a V8 13.5+ capture (numerators
/// over 2^53). A `Some` result reproduces every value within [`TOL_53`]; and
/// whenever the capture is served by a state that its first values determine,
/// it is found.
pub fn recover_53(obs: &[u64]) -> (r: Option<(XorShift128Plus, usize)>)
    requires
        obs.len() + CACHE_SIZE <= usize::MAX,
    ensures
        obs.len() < 8 ==> r is None,
        r matches Some(res) ==> res.1 < CACHE_SIZE && all_close(
            served_53(res.0, (res.1 + obs.len()) as nat).subrange(res.1 as int, (res.1 + obs.len()) as int),
            obs@,
            TOL_53,
        ),
        obs.len() >= 8 && (exists|s: XorShift128Plus, o: nat|
            serves_with(s, o, obs@, 11) && #[trigger] determined_with(s, o, obs@, 11)) ==> r is Some,
        forall|s: XorShift128Plus, o: nat|
            obs.len() >= 8 && serves_with(s, o, obs@, 11) && determined_with(s, o, obs@, 11) && #[trigger] pinned_53(
                s,
                o,
                obs@,
            ) ==> r == Some((s, o as usize)),
{
    let r = recover_with(obs, 11, TOL_53);
    proof {
        if let Some(res) = r {
            assert(all_close(
                served_53(res.0, (res.1 + obs.len()) as nat).subrange(res.1 as int, (res.1 + obs.len()) as int),
                obs@,
                TOL_53,
            ));
        }
    }
    r
}

// --- early xorshift128+ (V8 4.9 "Stage B", Chrome ~49–55) -------------------
// Before the stable form above, V8's first xorshift128+ release used a DIFFERENT
// double conversion and serving order: `ToDouble = ((s0+s1) & mantissaMask) | exp`
// (low 52 bits of the *sum*, not `s0>>12`), served IN ORDER (cache slots 2..63
// ascending; state persisted in slots 0–1 — observationally a contiguous stream).
// The sum is nonlinear over GF(2), so its state is found by an SMT solver; what
// the solver proposes is accepted here only by full reproduction.

/// Generate `n` numerators in the early-4.9 (Stage B) form: in-order, low 52
/// bits of `s0+s1`.
pub fn generate_early(state: XorShift128Plus, n: usize) -> (out: Vec<u64>)
    ensures
        out@ == early_outputs(state, n as nat),
{
    let mut st = state;
    let mut out: Vec<u64> = Vec::new();
    let mut k: usize = 0;
    while k < n
        invariant
            k <= n,
            st == iterate(state, k as nat),
            out@ == Seq::new(k as nat, |i: int| sum_low52(iterate(state, (i + 1) as nat))),
        decreases n - k,
    {
        proof {
            lemma_iterate_succ(state, k as nat);
        }
        st = step_state(st);
        out.push(st.sum() % P52);
        k = k + 1;
        proof {
            assert(out@ =~= Seq::new(k as nat, |i: int| sum_low52(iterate(state, (i + 1) as nat))));
        }
    }
    out
}

/// Accept a proposed early-4.9 (Stage B) state only if it reproduces every
/// observed numerator.
pub fn recover_early(obs: &[u64], s0: u64, s1: u64) -> (r: Option<XorShift128Plus>)
    ensures
        r is Some <==> obs.len() >= 8 && all_close(
            early_outputs(XorShift128Plus { s0, s1 }, obs.len() as nat),
            obs@,
            TOL,
        ),
        r matches Some(st) ==> st == (XorShift128Plus { s0, s1 }),
{
    if obs.len() < 8 {
        return None;
    }
    let state = XorShift128Plus::new(s0, s1);
    let regen = generate_early(state, obs.len());
    if all_within(regen.as_slice(), obs, TOL) {
        Some(state)
    } else {
        None
    }
}

// --- V8 5.1–5.3 (Chrome 52–53, Opera 38–40) ---------------------------------
// Same Stage-B conversion `(s0+s1) & mantissaMask`, but the cache serving order
// REVERSED: each batch fills slots 2..63 forward (62 outputs) and is served
// top-down (slot 63 first, down to slot 2). So within each batch of 62 the
// observed order is the reverse of generation order.

/// Generate `n` numerators in the V8 5.1–5.3 form: batches of 62
/// (`(s0+s1)&mask52`) served in reverse, starting from `seed` (state before the
/// first generated).
pub fn generate_5x(seed: XorShift128Plus, n: usize) -> (out: Vec<u64>)
    ensures
        out@ == served_5x(seed, n as nat),
{
    let mut st = seed;
    let mut out: Vec<u64> = Vec::new();
    let mut b: usize = 0;
    while out.len() < n
        invariant
            out.len() <= n,
            out.len() < n ==> out.len() == 62 * b,
            st == iterate(seed, 62 * b as nat),
            out@ == served_5x(seed, out.len() as nat),
        decreases n - out.len(),
    {
        let mut batch: Vec<u64> = Vec::new();
        let mut i: usize = 0;
        while i < BATCH_5X
            invariant
                i <= 62,
                batch.len() == i,
                st == iterate(seed, (62 * b + i) as nat),
                forall|k: int| 0 <= k < i ==> batch@[k] == sum_low52(iterate(seed, (62 * b + k + 1) as nat)),
            decreases 62 - i,
        {
            proof {
                lemma_iterate_succ(seed, (62 * b + i) as nat);
            }
            st = step_state(st);
            batch.push(st.sum() % P52);
            i = i + 1;
        }
        let mut p: usize = 0;
        while p < BATCH_5X && out.len() < n
            invariant
                p <= 62,
                out.len() <= n,
                out.len() == 62 * b + p,
                batch.len() == 62,
                forall|k: int| 0 <= k < 62 ==> batch@[k] == sum_low52(iterate(seed, (62 * b + k + 1) as nat)),
                out@ == served_5x(seed, out.len() as nat),
            decreases 62 - p,
        {
            let v = batch[61 - p];
            proof {
                let j = (62 * b + p) as nat;
                assert(j / 62 == b && j % 62 == p) by (nonlinear_arith)
                    requires
                        j == 62 * b + p,
                        p < 62,
                ;
                assert(gen_index_5x(j) == 62 * b + 61 - p);
            }
            out.push(v);
            p = p + 1;
            proof {
                assert(out@ =~= served_5x(seed, out.len() as nat));
            }
        }
        b = b + 1;
    }
    out
}

/// The eight numerators an SMT solver needs at batch offset `o`: the first
/// `62 - o` observed values reversed are the in-order generation prefix.
pub fn window_5x(obs: &[u64], o: usize) -> (w: Vec<u64>)
    requires
        o < BATCH_5X - 8,
        obs.len() >= BATCH_5X,
    ensures
        w@ == Seq::new(8, |i: int| obs@[61 - o - i]),
{
    let mut w: Vec<u64> = Vec::new();
    let mut i: usize = 0;
    while i < 8
        invariant
            i <= 8,
            o < 54,
            obs.len() >= 62,
            w@ == Seq::new(i as nat, |k: int| obs@[61 - o - k]),
        decreases 8 - i,
    {
        w.push(obs[61 - o - i]);
        i = i + 1;
        proof {
            assert(w@ =~= Seq::new(i as nat, |k: int| obs@[61 - o - k]));
        }
    }
    w
}

/// Accept a proposed V8 5.1–5.3 state at batch offset `o` only if it reproduces
/// every observed numerator after dropping the first `o` served values.
pub fn recover_5x(obs: &[u64], o: usize, s0: u64, s1: u64) -> (r: Option<(XorShift128Plus, usize)>)
    requires
        obs.len() + BATCH_5X <= usize::MAX,
    ensures
        r is Some <==> obs.len() >= BATCH_5X + 8 && o < BATCH_5X - 8 && all_close(
            served_5x(XorShift128Plus { s0, s1 }, (o + obs.len()) as nat).subrange(o as int, (o + obs.len()) as int),
            obs@,
            TOL,
        ),
        r matches Some(res) ==> res == (XorShift128Plus { s0, s1 }, o),
{
    if obs.len() < BATCH_5X + 8 || o >= BATCH_5X - 8 {
        return None;
    }
    let seed = XorShift128Plus::new(s0, s1);
    let regen = generate_5x(seed, o + obs.len());
    let tail = &regen.as_slice()[o..o + obs.len()];
    if all_within(tail, obs, TOL) {
        Some((seed, o))
    } else {
        None
    }
}

} // verus!
