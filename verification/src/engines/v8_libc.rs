//! Oldest V8 `Math.random()` — Chrome 1 (V8 0.3.x, 2008), before V8 had its own
//! PRNG. It just combined two host `libc random()` calls (`src/runtime.cc`):
//!
//! ```text
//! lo = random() / (RAND_MAX + 1.0)   // FIRST call  -> low part
//! hi = random()                      // SECOND call -> high part
//! result = (hi + lo) / (RAND_MAX + 1.0)
//! ```
//!
//! On Windows `random()` is the MSVCRT `rand()` LCG with `RAND_MAX = 0x7FFF`, so
//! each call yields 15 bits and `N = hi·2¹⁵ + lo` (grid 2⁻³⁰). rand():
//! `s = s*214013 + 2531011 (mod 2³²)`, output `(s >> 16) & 0x7FFF`. Outputs are
//! handled here as their 30-bit numerators `N`.
//!
//! PLATFORM-SPECIFIC: this models the Windows/MSVCRT build. A Linux/macOS Chrome 1
//! would use glibc's additive-feedback `random()` instead (different model).
use vstd::prelude::*;
use crate::engines::{all_close, all_within, close, lemma_close_self};
use crate::modular::{
    lemma_mask_is_mod, lemma_masked_prev_after_step, lemma_masked_step_after_prev, lemma_newton_msvcrt, masked_prev,
    masked_step, newton,
};
use vstd::arithmetic::div_mod::{lemma_div_denominator, lemma_fundamental_div_mod, lemma_fundamental_div_mod_converse};

verus! {

/// The `rand()` multiplier.
pub const A: u64 = 214013;

/// The `rand()` increment.
pub const C: u64 = 2531011;

/// The 32-bit state mask.
pub const MASK32: u64 = 0xffff_ffff;

/// The inverse of [`A`] modulo 2^32.
pub const INV_A: u64 = 0xb9b3_3155;

/// One `rand()` state step.
pub open spec fn lcg_spec(s: u32) -> u32 {
    masked_step(s as u64, A, C, MASK32) as u32
}

/// What `rand()` returns for a (stepped) state.
pub open spec fn rand_spec(s: u32) -> u64 {
    ((s / 0x1_0000) % 0x8000) as u64
}

/// `k` state steps.
pub open spec fn iter(s: u32, k: nat) -> u32
    decreases k,
{
    if k == 0 {
        s
    } else {
        lcg_spec(iter(s, (k - 1) as nat))
    }
}

/// The `k`-th numerator: the second call's 15 bits above the first call's.
pub open spec fn output(s: u32, k: nat) -> u64 {
    (rand_spec(iter(s, 2 * k + 2)) * 0x8000 + rand_spec(iter(s, 2 * k + 1))) as u64
}

/// The first `n` numerators from the state before the first call.
pub open spec fn outputs(s: u32, n: nat) -> Seq<u64> {
    Seq::new(n, |k: int| output(s, k as nat))
}

/// The first-call state with output `lo`, bit 31 and low 16 bits from `x`.
pub open spec fn candidate(lo: u64, x: u64) -> u64 {
    ((x / 0x1_0000) * 0x8000_0000 + lo * 0x1_0000 + x % 0x1_0000) as u64
}

/// Whether brute-force candidate `x` matches the second call and, stepped back,
/// reproduces every observed value.
pub open spec fn passes(obs: Seq<u64>, lo: u64, hi: u64, x: u64) -> bool {
    &&& rand_spec(lcg_spec(candidate(lo, x) as u32)) == hi
    &&& all_close(outputs(masked_prev(candidate(lo, x), C, INV_A, MASK32) as u32, obs.len()), obs, 0)
}

fn lcg(s: u32) -> (r: u32)
    ensures
        r == lcg_spec(s),
{
    proof {
        lemma_mask_is_mod((s as u64).wrapping_mul(A).wrapping_add(C), MASK32);
    }
    ((s as u64).wrapping_mul(A).wrapping_add(C) & MASK32) as u32
}

fn rand_out(s: u32) -> (r: u64)
    ensures
        r == rand_spec(s),
        r < 0x8000,
{
    ((s / 0x1_0000) % 0x8000) as u64
}

fn inv_a() -> (r: u64)
    ensures
        r == INV_A,
{
    let mut x: u64 = 1;
    let mut i: usize = 0;
    while i < 6
        invariant
            i <= 6,
            x == newton(A, i as nat),
        decreases 6 - i,
    {
        x = x.wrapping_mul(2u64.wrapping_sub(A.wrapping_mul(x)));
        i = i + 1;
    }
    proof {
        lemma_newton_msvcrt();
        lemma_mask_is_mod(x, MASK32);
    }
    x & MASK32
}

/// Generate `n` numerators from the MSVCRT `rand()` state before the first call.
pub fn generate(state: u32, n: usize) -> (out: Vec<u64>)
    ensures
        out@ == outputs(state, n as nat),
{
    let mut s = state;
    let mut out: Vec<u64> = Vec::new();
    let mut k: usize = 0;
    while k < n
        invariant
            k <= n,
            s == iter(state, 2 * k as nat),
            out@ == Seq::new(k as nat, |j: int| output(state, j as nat)),
        decreases n - k,
    {
        s = lcg(s);
        let lo = rand_out(s);
        s = lcg(s);
        let hi = rand_out(s);
        proof {
            assert(iter(state, 2 * k as nat + 1) == lcg_spec(iter(state, 2 * k as nat)));
            assert(iter(state, 2 * k as nat + 2) == lcg_spec(iter(state, 2 * k as nat + 1)));
        }
        out.push(hi * 0x8000 + lo);
        k = k + 1;
        proof {
            assert(out@ =~= Seq::new(k as nat, |j: int| output(state, j as nat)));
        }
    }
    out
}

/// The state one `rand()` step back.
pub open spec fn prev_spec(s: u32) -> u32 {
    masked_prev(s as u64, C, INV_A, MASK32) as u32
}

/// One `rand()` step back.
pub fn prev(s: u32) -> (r: u32)
    ensures
        r == prev_spec(s),
{
    let t = ((s as u64 + MASK32 + 1 - C) & MASK32).wrapping_mul(INV_A);
    proof {
        lemma_mask_is_mod(t, MASK32);
    }
    (t & MASK32) as u32
}

/// The `rand()` step is a bijection of the 32-bit states: stepping back undoes
/// a step, and a step undoes a step back.
pub proof fn lemma_step_inverts(s: u32)
    ensures
        prev_spec(lcg_spec(s)) == s,
        lcg_spec(prev_spec(s)) == s,
{
    let t = s as u64;
    lemma_mask_is_mod(t.wrapping_mul(A).wrapping_add(C), MASK32);
    assert((A * INV_A) % (MASK32 + 1) == 1);
    lemma_masked_prev_after_step(t, A, C, INV_A, MASK32);
    lemma_mask_is_mod(t, MASK32);
    let p = masked_prev(t, C, INV_A, MASK32);
    lemma_mask_is_mod(((t + MASK32 + 1 - C) as u64 & MASK32).wrapping_mul(INV_A), MASK32);
    assert((INV_A * A) % (MASK32 + 1) == 1);
    lemma_masked_step_after_prev(t, A, C, INV_A, MASK32);
    assert((p as u32) as u64 == p);
    lemma_mask_is_mod(masked_step(p, A, C, MASK32), MASK32);
}

/// A 32-bit state is its bit 31, its `rand()` output and its low 16 bits.
proof fn lemma_state_split(s: u32)
    ensures
        s == (s / 0x8000_0000) * 0x8000_0000 + ((s / 0x1_0000) % 0x8000) * 0x1_0000 + s % 0x1_0000,
        s / 0x8000_0000 <= 1,
{
    lemma_fundamental_div_mod(s as int, 0x1_0000);
    lemma_fundamental_div_mod((s / 0x1_0000) as int, 0x8000);
    lemma_div_denominator(s as int, 0x1_0000, 0x8000);
}

/// From any state, the brute force meets a passing candidate: the one built from
/// the first call's state.
proof fn lemma_true_candidate(st: u32, obs: Seq<u64>)
    requires
        obs.len() >= 1,
        outputs(st, obs.len()) == obs,
    ensures
        ((iter(st, 1) / 0x8000_0000) * 0x1_0000 + iter(st, 1) % 0x1_0000) < 0x2_0000,
        passes(
            obs,
            obs[0] % 0x8000,
            obs[0] / 0x8000,
            ((iter(st, 1) / 0x8000_0000) * 0x1_0000 + iter(st, 1) % 0x1_0000) as u64,
        ),
{
    let s1 = iter(st, 1);
    assert(iter(st, 0) == st);
    assert(s1 == lcg_spec(st));
    assert(iter(st, 2) == lcg_spec(s1));
    assert(obs[0] == output(st, 0));
    let lo = rand_spec(s1);
    let hi = rand_spec(iter(st, 2));
    lemma_fundamental_div_mod_converse(obs[0] as int, 0x8000, hi as int, lo as int);
    lemma_state_split(s1);
    let x = ((s1 / 0x8000_0000) * 0x1_0000 + s1 % 0x1_0000) as u64;
    lemma_fundamental_div_mod_converse(x as int, 0x1_0000, (s1 / 0x8000_0000) as int, (s1 % 0x1_0000) as int);
    assert(candidate(lo, x) == s1);
    lemma_mask_is_mod((st as u64).wrapping_mul(A).wrapping_add(C), MASK32);
    assert((A * INV_A) % (MASK32 + 1) == 1);
    lemma_masked_prev_after_step(st as u64, A, C, INV_A, MASK32);
    lemma_mask_is_mod(st as u64, MASK32);
    assert(masked_prev(candidate(lo, x), C, INV_A, MASK32) == st);
    lemma_close_self(obs, 0);
}

/// Recover the 32-bit `rand()` state (before the first call) from observed
/// numerators. Brutes the 17 bits of the first-call state not pinned by its
/// 15-bit output. Verified by full reproduction, so `Some` is conclusive.
pub fn recover(obs: &[u64]) -> (r: Option<u32>)
    ensures
        obs.len() < 3 ==> r is None,
        r matches Some(st) ==> outputs(st, obs.len() as nat) == obs@,
        obs.len() >= 3 && (exists|st: u32| outputs(st, obs.len() as nat) == obs@) ==> r is Some,
{
    if obs.len() < 3 {
        return None;
    }
    let n0 = obs[0];
    let lo0 = n0 % 0x8000;
    let hi0 = n0 / 0x8000;
    let inv = inv_a();
    let mut x: u64 = 0;
    while x < 0x2_0000
        invariant
            x <= 0x2_0000,
            obs.len() >= 3,
            n0 == obs@[0],
            lo0 == n0 % 0x8000,
            hi0 == n0 / 0x8000,
            inv == INV_A,
            forall|y: u64| y < x ==> !#[trigger] passes(obs@, lo0, hi0, y),
        decreases 0x2_0000 - x,
    {
        let s1 = ((x / 0x1_0000) * 0x8000_0000 + lo0 * 0x1_0000 + x % 0x1_0000) as u32;
        assert(s1 == candidate(lo0, x));
        if rand_out(lcg(s1)) == hi0 {
            proof {
                lemma_mask_is_mod(((s1 as u64 + MASK32 + 1 - C) as u64 & MASK32).wrapping_mul(inv), MASK32);
            }
            let pre = ((((s1 as u64) + MASK32 + 1 - C) & MASK32).wrapping_mul(inv) & MASK32) as u32;
            let regen = generate(pre, obs.len());
            if all_within(regen.as_slice(), obs, 0) {
                proof {
                    assert forall|i: int| 0 <= i < obs.len() implies regen@[i] == obs@[i] by {
                        assert(close(regen@[i], obs@[i], 0));
                    }
                    assert(regen@ =~= obs@);
                }
                return Some(pre);
            }
        }
        x = x + 1;
    }
    proof {
        if exists|st: u32| outputs(st, obs.len() as nat) == obs@ {
            let st = choose|st: u32| outputs(st, obs.len() as nat) == obs@;
            lemma_true_candidate(st, obs@);
        }
    }
    None
}

} // verus!
