//! Hermes `Math.random()` — the engine behind **React Native** apps.
//!
//! Hermes never wrote its own PRNG: `mathRandom` seeds a C++ standard-library
//! engine once and folds every draw into a double with
//! `std::uniform_real_distribution<>(0.0, 1.0)`. The engine changed exactly
//! once in Hermes' public history:
//!
//! | Era | `randomEngine_` | Seed | Per-call draws |
//! |---|---|---|---|
//! | **1 — LCG** | `std::minstd_rand` | 32-bit | 2 |
//! | **2 — Mersenne** | `std::mt19937_64` | 64-bit | 1 |
//!
//! With libc++'s `generate_canonical`, `R = g.max() - g.min() + 1` and `k`
//! draws per double, the first draw being the low digit:
//! `value = ((g0-1) + (g1-1)·R) / R²` for minstd (`R = 2³¹−2`), and
//! `value = out / 2⁶⁴` for mt19937_64. Era 1 is handled here as the integer
//! numerator `(g0-1) + (g1-1)·R` over `R²`, era 2 as the raw 64-bit output.
//!
//! Era 1's high digit is the raw LCG state itself, so one value pins the whole
//! 31-bit state ([`recover`]).
use vstd::prelude::*;

use crate::engines::{all_close, all_within};
use vstd::arithmetic::div_mod::{lemma_mul_mod_noop_left, lemma_mul_mod_noop_right};
use vstd::arithmetic::mul::lemma_mul_is_associative;

verus! {

// ---- Era 1: std::minstd_rand ------------------------------------------------

/// MINSTD modulus, `2³¹ − 1` (a Mersenne prime).
pub const M: u64 = 2_147_483_647;

/// MINSTD multiplier (`std::minstd_rand`, *not* `minstd_rand0`'s 16807).
pub const A: u64 = 48_271;

/// `g.max()-g.min()+1 = M-1`: the radix of the two-draw canonical fold.
pub const R: u64 = 2_147_483_646;

/// The inverse of `A` modulo `M`.
pub const A_INV: u64 = 1_899_818_559;

/// Agreement tolerance on numerators over `R²` (the double comparison
/// `|a - b| < 1e-12`).
pub const TOL: u64 = 4_611_686;

/// One MINSTD step on a state value.
pub open spec fn step_spec(s: u32) -> u32 {
    ((s * A) % (M as int)) as u32
}

/// `k` MINSTD steps.
pub open spec fn iter(s: u32, k: nat) -> u32
    decreases k,
{
    if k == 0 {
        s
    } else {
        step_spec(iter(s, (k - 1) as nat))
    }
}

/// The numerator (over `R²`) of the `k`-th output from state `s`.
pub open spec fn output(s: u32, k: nat) -> u64 {
    ((iter(s, 2 * k + 1) - 1) + (iter(s, 2 * k + 2) - 1) * R) as u64
}

/// The first `n` outputs from `s`.
pub open spec fn outputs(s: u32, n: nat) -> Seq<u64> {
    Seq::new(n, |k: int| output(s, k as nat))
}

/// One MINSTD step: `state = state·48271 mod (2³¹−1)`. Valid states are `1..=M-1`.
pub fn step(s: u32) -> (r: u32)
    ensures
        r == step_spec(s),
        r < M,
{
    ((s as u64 * A) % M) as u32
}

/// Modular exponentiation `b^e mod M` by binary recursion on `e`.
pub open spec fn fpow(b: int, e: nat) -> int
    decreases e,
{
    if e == 0 {
        1
    } else {
        let h = fpow((b * b) % (M as int), e / 2);
        if e % 2 == 1 {
            (b * h) % (M as int)
        } else {
            h
        }
    }
}

proof fn lemma_fpow_inverse()
    ensures
        fpow(48271, 2147483645) == 1899818559,
        (48271int * 1899818559int) % 2147483647int == 1,
{
    assert(fpow(182605794, 0) == 1);
    assert(fpow(2147435376, 1) == 2147435376);
    assert(fpow(464244102, 3) == 1612292450);
    assert(fpow(365365725, 7) == 1783916372);
    assert(fpow(769116844, 15) == 1004446437);
    assert(fpow(1619648305, 31) == 523706288);
    assert(fpow(1447757152, 63) == 1172678374);
    assert(fpow(113485918, 127) == 1757271059);
    assert(fpow(1221060861, 255) == 2048863192);
    assert(fpow(1893669646, 511) == 338448460);
    assert(fpow(1150758874, 1023) == 1746776881);
    assert(fpow(924626149, 2047) == 1680231669);
    assert(fpow(563429426, 4095) == 479719041);
    assert(fpow(1188894991, 8191) == 1046678760);
    assert(fpow(1335192557, 16383) == 1776935078);
    assert(fpow(1189788791, 32767) == 1931179909);
    assert(fpow(1363399672, 65535) == 1275185273);
    assert(fpow(1706997846, 131071) == 334035185);
    assert(fpow(208615010, 262143) == 35669526);
    assert(fpow(1176045659, 524287) == 553233047);
    assert(fpow(560989, 1048575) == 1169655396);
    assert(fpow(1491754107, 2097151) == 1531925585);
    assert(fpow(1928592452, 4194303) == 1156961579);
    assert(fpow(944147713, 8388607) == 2071073749);
    assert(fpow(1617261148, 16777215) == 970219450);
    assert(fpow(719080959, 33554431) == 1451983856);
    assert(fpow(890442452, 67108863) == 428002514);
    assert(fpow(1098894339, 134217727) == 50045673);
    assert(fpow(854716505, 268435455) == 1388249606);
    assert(fpow(1914720637, 536870911) == 225371434);
    assert(fpow(182605794, 1073741822) == 225371434);
    assert(fpow(48271, 2147483645) == 1899818559);
}

proof fn lemma_mul_mod3(a: int, b: int, c: int)
    ensures
        ((a * b) % (M as int)) * c % (M as int) == a * (b * c) % (M as int),
        a * (b * c % (M as int)) % (M as int) == a * (b * c) % (M as int),
{
    lemma_mul_mod_noop_left(a * b, c, M as int);
    lemma_mul_mod_noop_right(a, b * c, M as int);
    lemma_mul_is_associative(a, b, c);
}

/// One round of square-and-multiply keeps `acc · base^exp` fixed modulo `M`.
proof fn lemma_pow_round(acc: u64, base: u64, exp: u64)
    requires
        acc < M,
        base < M,
        exp > 0,
    ensures
        acc * base < 0x4000_0000_0000_0000,
        base * base < 0x4000_0000_0000_0000,
        ((if exp % 2 == 1 {
            (acc * base) % (M as int)
        } else {
            acc as int
        }) * fpow((base * base) % (M as int), (exp / 2) as nat)) % (M as int) == (acc * fpow(
            base as int,
            exp as nat,
        )) % (M as int),
{
    assert(acc * base < 0x4000_0000_0000_0000) by (nonlinear_arith)
        requires
            acc < M,
            base < M,
    ;
    assert(base * base < 0x4000_0000_0000_0000) by (nonlinear_arith)
        requires
            base < M,
    ;
    let h = fpow((base * base) % (M as int), (exp / 2) as nat);
    if exp % 2 == 1 {
        lemma_mul_mod3(acc as int, base as int, h);
    }
}

proof fn lemma_exp_bits(e: u64)
    by (bit_vector)
    ensures
        (e & 1 == 1) == (e % 2 == 1),
        e >> 1 == e / 2,
{
}

/// Modular inverse of `A` modulo `M` (prime), via Fermat: `A^(M-2) mod M`.
pub fn a_inv() -> (r: u64)
    ensures
        r == A_INV,
        (A * r) % (M as int) == 1,
{
    let mut base = A % M;
    let mut exp = M - 2;
    let mut acc = 1u64;
    proof {
        lemma_fpow_inverse();
    }
    while exp > 0
        invariant
            base < M,
            acc < M,
            (acc * fpow(base as int, exp as nat)) % (M as int) == 1899818559,
        decreases exp,
    {
        proof {
            lemma_exp_bits(exp);
            lemma_pow_round(acc, base, exp);
        }
        if exp & 1 == 1 {
            acc = (acc * base) % M;
        }
        base = (base * base) % M;
        exp >>= 1;
    }
    proof {
        lemma_fpow_inverse();
    }
    acc
}

/// Invert one MINSTD step: `prev = state·A⁻¹ mod M`.
pub fn prev(s: u32, inv: u64) -> (r: u32)
    requires
        s * inv <= u64::MAX,
    ensures
        r == (s * inv) % (M as int),
{
    ((s as u64 * inv) % M) as u32
}

/// Stepping back with `A⁻¹` undoes a step (up to reduction modulo `M`).
pub proof fn lemma_prev_after_step(s: u32)
    ensures
        (step_spec(s) * A_INV) % (M as int) == (s as int) % (M as int),
{
    lemma_inverse_cancels(s as int, A as int, A_INV as int);
}

/// `(x·a mod M)·b mod M == x mod M` when `a·b ≡ 1`.
proof fn lemma_inverse_cancels(x: int, a: int, b: int)
    requires
        (a * b) % (M as int) == 1,
    ensures
        ((x * a) % (M as int)) * b % (M as int) == x % (M as int),
{
    let m = M as int;
    lemma_mul_mod_noop_left(x * a, b, m);
    lemma_mul_is_associative(x, a, b);
    lemma_mul_mod_noop_right(x, a * b, m);
    assert(x * ((a * b) % m) == x);
}

/// Stepping forward undoes a step back.
pub proof fn lemma_step_after_prev(s: u32)
    requires
        s < M,
    ensures
        step_spec(((s * A_INV) % (M as int)) as u32) == s,
{
    lemma_fpow_inverse();
    assert((A_INV * A) % (M as int) == 1);
    lemma_inverse_cancels(s as int, A_INV as int, A as int);
    assert((s as int) % (M as int) == s);
}

/// The state a fresh `std::minstd_rand` reaches after `seed(v)`:
/// `state = v mod M`, bumped to 1 if that is 0 (LCG fixed point).
pub fn seeded(v: u32) -> (r: u32)
    ensures
        r == if (v as int) % (M as int) == 0 {
            1
        } else {
            (v as int) % (M as int)
        },
{
    let s = (v as u64 % M) as u32;
    if s == 0 {
        1
    } else {
        s
    }
}

/// A non-zero residue stays non-zero under a step (`A` is invertible mod `M`).
proof fn lemma_step_nonzero(s: u32)
    requires
        (s as int) % (M as int) != 0,
    ensures
        (step_spec(s) as int) % (M as int) != 0,
        1 <= step_spec(s) < M,
{
    lemma_prev_after_step(s);
}

proof fn lemma_iter_nonzero(s: u32, k: nat)
    requires
        (s as int) % (M as int) != 0,
    ensures
        1 <= k ==> 1 <= iter(s, k) < M,
        (iter(s, k) as int) % (M as int) != 0,
    decreases k,
{
    if k > 0 {
        lemma_iter_nonzero(s, (k - 1) as nat);
        lemma_step_nonzero(iter(s, (k - 1) as nat));
    }
}

/// Generate `n` numerators (over `R²`) from `state` (the LCG state *before* the
/// first output), matching libc++ `uniform_real_distribution<>(0,1)` over
/// `std::minstd_rand`. A state that is a multiple of `M` is the LCG's fixed
/// point 0 and has no outputs.
pub fn generate(state: u32, n: usize) -> (out: Vec<u64>)
    requires
        (state as int) % (M as int) != 0,
    ensures
        out@ == outputs(state, n as nat),
{
    let mut st = state;
    let mut out: Vec<u64> = Vec::new();
    let mut k: usize = 0;
    while k < n
        invariant
            k <= n,
            (state as int) % (M as int) != 0,
            out.len() == k,
            st == iter(state, 2 * k as nat),
            forall|j: int| 0 <= j < k ==> #[trigger] out@[j] == output(state, j as nat),
        decreases n - k,
    {
        proof {
            lemma_iter_nonzero(state, (2 * k + 1) as nat);
            lemma_iter_nonzero(state, (2 * k + 2) as nat);
        }
        let g0 = step(st);
        let g1 = step(g0);
        st = g1;
        proof {
            assert((g1 - 1) * R <= (M - 2) * R) by (nonlinear_arith)
                requires
                    1 <= g1 < M,
            ;
        }
        out.push((g0 - 1) as u64 + (g1 - 1) as u64 * R);
        k = k + 1;
    }
    proof {
        assert(out@ =~= outputs(state, n as nat));
    }
    out
}

/// Every state that is not a multiple of `M` produces the same outputs as its
/// residue.
proof fn lemma_outputs_residue(s: u32, n: nat)
    ensures
        outputs(s, n) == outputs(((s as int) % (M as int)) as u32, n),
{
    let r = ((s as int) % (M as int)) as u32;
    assert(step_spec(s) == step_spec(r)) by {
        vstd::arithmetic::div_mod::lemma_mul_mod_noop_left(s as int, A as int, M as int);
    }
    assert forall|k: int| 0 <= k < n implies #[trigger] outputs(s, n)[k] == outputs(r, n)[k] by {
        lemma_iter_same_first((2 * k + 1) as nat, s, r);
        lemma_iter_same_first((2 * k + 2) as nat, s, r);
    }
}

proof fn lemma_iter_same_first(k: nat, a: u32, b: u32)
    requires
        step_spec(a) == step_spec(b),
    ensures
        k >= 1 ==> iter(a, k) == iter(b, k),
    decreases k,
{
    assert(iter(a, 0) == a);
    assert(iter(b, 0) == b);
    if k > 1 {
        lemma_iter_same_first((k - 1) as nat, a, b);
    }
}

proof fn lemma_output_digits(s: u32)
    requires
        (s as int) % (M as int) != 0,
    ensures
        (output(s, 0) as int) / (R as int) == iter(s, 2) - 1,
        1 <= iter(s, 2) < M,
{
    lemma_iter_nonzero(s, 1);
    lemma_iter_nonzero(s, 2);
    let g0 = iter(s, 1);
    let g1 = iter(s, 2);
    vstd::arithmetic::div_mod::lemma_fundamental_div_mod_converse(
        (g0 - 1) + (g1 - 1) * R,
        R as int,
        (g1 - 1) as int,
        (g0 - 1) as int,
    );
}

/// Recover the LCG state *before* the first observed output, closed-form.
///
/// The high digit `g1-1 = ⌊n₀ / R⌋` is the raw LCG state of the first output's
/// second step, so one value pins the whole 31-bit state. An observation taken
/// from a rounded double can be off by one in that digit, so the neighbours
/// are tried too, and each candidate is confirmed by full reproduction.
/// On a capture that a state generated exactly, that state comes back.
pub fn recover(obs: &[u64]) -> (r: Option<u32>)
    ensures
        obs.len() < 2 ==> r is None,
        r matches Some(st) ==> st < M && (st as int) % (M as int) != 0 && all_close(
            outputs(st, obs.len() as nat),
            obs@,
            TOL,
        ),
        obs.len() >= 2 && reproducible(obs@) ==> r is Some,
        forall|st: u32|
            obs.len() >= 2 && 0 < st < M && #[trigger] outputs(st, obs.len() as nat) == obs@ ==> r == Some(st),
{
    if obs.len() < 2 {
        return None;
    }
    let inv = a_inv();
    let base = obs[0] / R;
    // Candidates in the order base, base - 1, base + 1.
    let first = try_candidate(base, obs, inv);
    proof {
        assert forall|st: u32| 0 < st < M && #[trigger] outputs(st, obs.len() as nat) == obs@ implies first == Some(
            st,
        ) by {
            lemma_exact_state(obs@, st);
        }
    }
    if let Some(st) = first {
        return Some(st);
    }
    if base >= 1 {
        if let Some(st) = try_candidate(base - 1, obs, inv) {
            return Some(st);
        }
    }
    if base < R {
        if let Some(st) = try_candidate(base + 1, obs, inv) {
            return Some(st);
        }
    }
    None
}

/// Some valid state reproduces `obs` exactly.
pub open spec fn reproducible(obs: Seq<u64>) -> bool {
    exists|st: u32| (st as int) % (M as int) != 0 && outputs(st, obs.len()) == obs
}

/// Check the state whose first output has high digit `g1m1` against `obs`.
fn try_candidate(g1m1: u64, obs: &[u64], inv: u64) -> (r: Option<u32>)
    requires
        inv == A_INV,
        obs.len() >= 1,
    ensures
        r matches Some(st) ==> st < M && (st as int) % (M as int) != 0 && all_close(
            outputs(st, obs.len() as nat),
            obs@,
            TOL,
        ),
        g1m1 == (obs@[0] as int) / (R as int) && reproducible(obs@) ==> r is Some,
        r matches Some(st) ==> g1m1 < R && st == prev_spec_u(prev_spec_u((g1m1 + 1) as u32)),
{
    proof {
        if g1m1 == (obs@[0] as int) / (R as int) && reproducible(obs@) {
            lemma_reproducible_candidate(obs@);
        }
    }
    if g1m1 >= R {
        return None;
    }
    let state = candidate_state(g1m1, inv);
    let regen = generate(state, obs.len());
    if all_within(regen.as_slice(), obs, TOL) {
        Some(state)
    } else {
        None
    }
}

/// The state two steps before the one whose value minus one is `g1m1`.
fn candidate_state(g1m1: u64, inv: u64) -> (st: u32)
    requires
        g1m1 < R,
        inv == A_INV,
    ensures
        st == prev_spec_u(prev_spec_u((g1m1 + 1) as u32)),
        (st as int) % (M as int) != 0,
        st < M,
{
    let g1 = (g1m1 + 1) as u32;
    proof {
        assert(g1 * inv <= u64::MAX) by (nonlinear_arith)
            requires
                g1 < M,
                inv == A_INV,
        ;
    }
    let p1 = prev(g1, inv);
    proof {
        assert(p1 * inv <= u64::MAX) by (nonlinear_arith)
            requires
                p1 < M,
                inv == A_INV,
        ;
    }
    let st = prev(p1, inv);
    proof {
        lemma_step_after_prev(g1);
        lemma_step_after_prev(p1);
        assert(step_spec(p1) == g1);
        assert(step_spec(st) == p1);
        if (st as int) % (M as int) == 0 {
            vstd::arithmetic::div_mod::lemma_mul_mod_noop_left(st as int, A as int, M as int);
            assert(step_spec(st) == 0);
            assert(step_spec(p1) == 0) by {
                vstd::arithmetic::div_mod::lemma_mul_mod_noop_left(p1 as int, A as int, M as int);
            }
        }
    }
    st
}

/// For a reproducible capture the first candidate digit is in range and its
/// state reproduces the capture.
proof fn lemma_reproducible_candidate(obs: Seq<u64>)
    requires
        reproducible(obs),
        obs.len() >= 1,
    ensures
        (obs[0] as int) / (R as int) < R,
        outputs(prev_spec_u(prev_spec_u((obs[0] / R + 1) as u32)), obs.len()) == obs,
        all_close(outputs(prev_spec_u(prev_spec_u((obs[0] / R + 1) as u32)), obs.len()), obs, TOL),
{
    let st = choose|st: u32| (st as int) % (M as int) != 0 && outputs(st, obs.len()) == obs;
    lemma_output_digits(st);
    assert(output(st, 0) == outputs(st, obs.len())[0]);
    lemma_candidate_state(st);
    assert(outputs(prev_spec_u(prev_spec_u(iter(st, 2))), obs.len()) == outputs(st, obs.len()));
}

/// A state that generates the capture exactly is the first candidate's state.
proof fn lemma_exact_state(obs: Seq<u64>, st: u32)
    requires
        obs.len() >= 1,
        0 < st < M,
        outputs(st, obs.len()) == obs,
    ensures
        reproducible(obs),
        (obs[0] as int) / (R as int) < R,
        prev_spec_u(prev_spec_u((obs[0] / R + 1) as u32)) == st,
{
    assert(output(st, 0) == outputs(st, obs.len())[0]);
    lemma_state_from_first_output(st);
}

/// The high digit of a state's first output, plus one, is two steps ahead of it.
proof fn lemma_state_from_first_output(st: u32)
    requires
        0 < st < M,
    ensures
        (output(st, 0) as int) / (R as int) < R,
        prev_spec_u(prev_spec_u((output(st, 0) / R + 1) as u32)) == st,
{
    lemma_output_digits(st);
    let g1 = iter(st, 2);
    assert((output(st, 0) / R + 1) as u32 == g1);
    lemma_two_back(st);
}

/// Two steps back from `iter(st, 2)` is `st` itself.
proof fn lemma_two_back(st: u32)
    requires
        0 < st < M,
    ensures
        prev_spec_u(prev_spec_u(iter(st, 2))) == st,
{
    lemma_iter_nonzero(st, 1);
    let s1 = iter(st, 1);
    assert(iter(st, 2) == step_spec(s1));
    lemma_prev_after_step(s1);
    assert(prev_spec_u(iter(st, 2)) == (s1 as int) % (M as int));
    assert(s1 < M);
    assert(prev_spec_u(iter(st, 2)) == s1);
    assert(iter(st, 1) == step_spec(iter(st, 0)));
    lemma_prev_after_step(st);
    assert(prev_spec_u(s1) == (st as int) % (M as int));
}

/// The state two steps back from a generating state's second successor.
spec fn prev_spec_u(s: u32) -> u32 {
    ((s * A_INV) % (M as int)) as u32
}

/// Two steps back from `iter(st, 2)` reach a state with the same outputs.
proof fn lemma_candidate_state(st: u32)
    requires
        (st as int) % (M as int) != 0,
    ensures
        forall|n: nat|
            #[trigger] outputs(prev_spec_u(prev_spec_u(iter(st, 2))), n) == outputs(st, n),
{
    lemma_iter_nonzero(st, 1);
    let s1 = iter(st, 1);
    assert(iter(st, 2) == step_spec(s1));
    lemma_prev_after_step(s1);
    assert(prev_spec_u(iter(st, 2)) == (s1 as int) % (M as int));
    assert(s1 < M);
    assert(prev_spec_u(iter(st, 2)) == s1);
    assert(iter(st, 1) == step_spec(iter(st, 0)));
    lemma_prev_after_step(st);
    let c = prev_spec_u(s1);
    assert(c == (st as int) % (M as int));
    assert forall|n: nat| #[trigger] outputs(c, n) == outputs(st, n) by {
        lemma_outputs_residue(st, n);
    }
}

/// Recover the exact 32-bit value passed to `std::minstd_rand::seed()`,
/// assuming the capture starts at the realm's first `Math.random()`. Only
/// recoverable when the seed is already reduced (`< M`); a larger value is
/// reported as its residue.
pub fn recover_seed(obs: &[u64]) -> (r: Option<u32>)
    ensures
        obs.len() < 2 ==> r is None,
        r matches Some(st) ==> (st as int) % (M as int) != 0 && all_close(
            outputs(st, obs.len() as nat),
            obs@,
            TOL,
        ),
        obs.len() >= 2 && reproducible(obs@) ==> r is Some,
        forall|st: u32|
            obs.len() >= 2 && 0 < st < M && #[trigger] outputs(st, obs.len() as nat) == obs@ ==> r == Some(st),
{
    recover(obs)
}

// ---- Era 2: std::mt19937_64 -------------------------------------------------

pub const NN: usize = 312;
pub const MM: usize = 156;
pub const MATRIX_A: u64 = 0xB502_6F5A_A966_19E9;
/// Upper 33 bits.
pub const UM: u64 = 0xFFFF_FFFF_8000_0000;
/// Lower 31 bits.
pub const LM: u64 = 0x7FFF_FFFF;

/// Word `i` of the state `std::mt19937_64::seed(seed)` sets up (`init_genrand64`).
pub open spec fn init_word(seed: u64, i: nat) -> u64
    decreases i,
{
    if i == 0 {
        seed
    } else {
        let p = init_word(seed, (i - 1) as nat);
        6_364_136_223_846_793_005u64.wrapping_mul(p ^ (p >> 62u64)).wrapping_add(i as u64)
    }
}

/// The full seeded state.
pub open spec fn init_words(seed: u64) -> Seq<u64> {
    Seq::new(NN as nat, |i: int| init_word(seed, i as nat))
}

/// The twist: `x >> 1`, xored with the matrix when `x` is odd.
pub open spec fn twist(x: u64) -> u64 {
    if x & 1 != 0 {
        (x >> 1u64) ^ MATRIX_A
    } else {
        x >> 1u64
    }
}

/// Word `i` after regenerating the block in place from `old`: words before
/// `i` are already new when they are read.
pub open spec fn block_word(old: Seq<u64>, i: nat) -> u64
    decreases i,
{
    if i >= NN {
        0
    } else {
        let next = if i + 1 < NN {
            old[i + 1 as int]
        } else {
            block_word(old, 0)
        };
        let far = if i + MM < NN {
            old[i + MM as int]
        } else {
            block_word(old, (i + MM - NN) as nat)
        };
        far ^ twist((old[i as int] & UM) | (next & LM))
    }
}

/// The regenerated block.
pub open spec fn block(old: Seq<u64>) -> Seq<u64> {
    Seq::new(NN as nat, |i: int| block_word(old, i as nat))
}

/// The regenerated block is the reference in-place twist: word `i` of the new
/// block mixes the old word `i` with the word after it and the word `MM` ahead,
/// where a word that lies past the end wraps around to the start of the block
/// and is read *after* it was regenerated. So the last `MM` words take their
/// far word from the new block, and the last word takes its next word from
/// the new block's first word.
pub proof fn lemma_block_in_place(old: Seq<u64>)
    requires
        old.len() == NN,
    ensures
        block(old).len() == NN,
        forall|i: int|
            0 <= i < NN ==> #[trigger] block(old)[i] == (if i + MM < NN {
                old[i + MM]
            } else {
                block(old)[i + MM - NN]
            }) ^ twist((old[i] & UM) | ((if i + 1 < NN {
                old[i + 1]
            } else {
                block(old)[0]
            }) & LM)),
{
}

/// MT19937-64 output tempering.
pub open spec fn temper(x0: u64) -> u64 {
    let x1 = x0 ^ ((x0 >> 29u64) & 0x5555_5555_5555_5555u64);
    let x2 = x1 ^ ((x1 << 17u64) & 0x71D6_7FFF_EDA6_0000u64);
    let x3 = x2 ^ ((x2 << 37u64) & 0xFFF7_EEE0_0000_0000u64);
    x3 ^ (x3 >> 43u64)
}

/// The state `(words, index)` with the block regenerated when it is used up.
pub open spec fn refill(s: (Seq<u64>, nat)) -> (Seq<u64>, nat) {
    if s.1 >= NN {
        (block(s.0), 0)
    } else {
        s
    }
}

/// The generator state after `k` outputs from a fresh `seed(seed)`.
pub open spec fn mt_after(seed: u64, k: nat) -> (Seq<u64>, nat)
    decreases k,
{
    if k == 0 {
        (init_words(seed), NN as nat)
    } else {
        let s = refill(mt_after(seed, (k - 1) as nat));
        (s.0, s.1 + 1)
    }
}

/// Output `k` of a fresh `seed(seed)`.
pub open spec fn mt_output(seed: u64, k: nat) -> u64 {
    let s = refill(mt_after(seed, k));
    temper(s.0[s.1 as int])
}

/// A `std::mt19937_64` instance (Mersenne Twister, 64-bit).
#[derive(Clone)]
pub struct Mt19937_64 {
    mt: [u64; NN],
    idx: usize,
}

impl Mt19937_64 {
    /// The twister's words.
    pub closed spec fn words(&self) -> Seq<u64> {
        self.mt@
    }

    /// How many words of the current block have been used.
    pub closed spec fn index(&self) -> nat {
        self.idx as nat
    }

    /// Seed exactly as `std::mt19937_64::seed(v)` (`init_genrand64`).
    pub fn seeded(seed: u64) -> (r: Self)
        ensures
            r.words() == init_words(seed),
            r.index() == NN,
    {
        let mut mt = [0u64; NN];
        mt[0] = seed;
        let mut i: usize = 1;
        while i < NN
            invariant
                1 <= i <= NN,
                mt@.len() == NN,
                forall|j: int| 0 <= j < i ==> #[trigger] mt@[j] == init_word(seed, j as nat),
            decreases NN - i,
        {
            let p = mt[i - 1];
            mt[i] = 6_364_136_223_846_793_005u64.wrapping_mul(p ^ (p >> 62)).wrapping_add(i as u64);
            i = i + 1;
        }
        proof {
            assert(mt@ =~= init_words(seed));
        }
        Mt19937_64 { mt, idx: NN }
    }

    /// The 64-bit seed Hermes builds: `(hi << 32) | lo` from two 32-bit
    /// `std::random_device()` draws.
    pub fn hermes_seeded(hi: u32, lo: u32) -> (r: Self)
        ensures
            r.words() == init_words((hi * 0x1_0000_0000 + lo) as u64),
            r.index() == NN,
    {
        proof {
            let h = hi as u64;
            let l = lo as u64;
            assert((h << 32u64) | l == h * 0x1_0000_0000 + l) by (bit_vector)
                requires
                    h <= 0xffff_ffff,
                    l <= 0xffff_ffff,
            ;
        }
        Self::seeded(((hi as u64) << 32) | lo as u64)
    }

    fn generate_block(&mut self)
        ensures
            final(self).words() == block(old(self).words()),
            final(self).index() == 0,
    {
        let ghost old_mt = self.mt@;
        let mut i: usize = 0;
        while i < NN
            invariant
                i <= NN,
                self.mt@.len() == NN,
                old_mt.len() == NN,
                forall|j: int| 0 <= j < i ==> #[trigger] self.mt@[j] == block_word(old_mt, j as nat),
                forall|j: int| i <= j < NN ==> #[trigger] self.mt@[j] == old_mt[j],
            decreases NN - i,
        {
            let x = (self.mt[i] & UM) | (self.mt[(i + 1) % NN] & LM);
            let mut xa = x >> 1;
            if x & 1 != 0 {
                xa ^= MATRIX_A;
            }
            let v = self.mt[(i + MM) % NN] ^ xa;
            proof {
                assert(v == block_word(old_mt, i as nat));
            }
            self.mt[i] = v;
            i = i + 1;
        }
        self.idx = 0;
        proof {
            assert(self.mt@ =~= block(old_mt));
        }
    }

    /// Next raw 64-bit output.
    pub fn next_u64(&mut self) -> (r: u64)
        ensures
            ({
                let s = refill((old(self).words(), old(self).index()));
                &&& r == temper(s.0[s.1 as int])
                &&& final(self).words() == s.0
                &&& final(self).index() == s.1 + 1
            }),
    {
        if self.idx >= NN {
            self.generate_block();
        }
        let mut x = self.mt[self.idx];
        self.idx += 1;
        x ^= (x >> 29) & 0x5555_5555_5555_5555;
        x ^= (x << 17) & 0x71D6_7FFF_EDA6_0000;
        x ^= (x << 37) & 0xFFF7_EEE0_0000_0000;
        x ^= x >> 43;
        x
    }
}

/// Generate `n` raw era-2 outputs from a fresh `mt19937_64` with the given
/// 64-bit seed; libc++ folds each into a double as `out / 2⁶⁴`.
pub fn generate_mt(seed: u64, n: usize) -> (out: Vec<u64>)
    ensures
        out.len() == n,
        forall|k: int| 0 <= k < n ==> #[trigger] out@[k] == mt_output(seed, k as nat),
{
    let mut g = Mt19937_64::seeded(seed);
    let mut out: Vec<u64> = Vec::new();
    let mut k: usize = 0;
    while k < n
        invariant
            k <= n,
            out.len() == k,
            (g.words(), g.index()) == mt_after(seed, k as nat),
            forall|j: int| 0 <= j < k ==> #[trigger] out@[j] == mt_output(seed, j as nat),
        decreases n - k,
    {
        let v = g.next_u64();
        out.push(v);
        k = k + 1;
    }
    out
}

} // verus!
