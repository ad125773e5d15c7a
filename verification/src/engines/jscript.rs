//! Internet Explorer `Math.random()` — JScript (IE 6/7/8) AND early Chakra
//! (IE 9/10/11). Both use the **same** generator: a POSIX drand48-style 48-bit
//! LCG (identical constants to legacy SpiderMonkey / `java.util.Random`), with
//! **two** steps per call producing a 54-bit double:
//!
//! ```text
//! state = (state * 0x5DEECE66D + 0xB) mod 2^48        // per step
//! sn   = step(state); hi = sn >> 21;                  // high 27 bits
//! state= step(sn);    lo = state >> 21;               // high 27 bits
//! double = (hi * 2^27 + lo) / 2^54                    // 54-bit, grid 2^-54
//! ```
//!
//! (Later Chakra switched to xorshift128+.)
//!
//! Note the engine emits 54 bits — one more than the 53-bit norm — so a value
//! ≥ 0.5 loses its low bit when it becomes a double (rounded half to even).
//! Outputs are handled here as numerators over 2^54 *after* that rounding, i.e.
//! exactly the doubles the browser returns. Recovery anchors on a value < 0.5
//! (exact) and verifies by value.
use vstd::prelude::*;
use crate::engines::spidermonkey_legacy::{step_spec, ADD, INV, MASK, MULT};
use crate::engines::{all_close, all_within, close, lemma_close_self};
use crate::modular::{
    lemma_mask_is_mod, lemma_masked_prev_after_step, lemma_newton_drand48, lemma_or_low,
    lemma_powers, lemma_shl_mul, lemma_shr_div, masked_prev, newton,
};
use vstd::arithmetic::div_mod::lemma_fundamental_div_mod_converse;

verus! {

/// Largest numerator difference the reproduction check accepts (1e-12 on the
/// 2^-54 grid).
pub const TOL: u64 = 18014;

/// 2^53: numerators below it (values below 0.5) are exact doubles.
pub const HALF: u64 = 0x20_0000_0000_0000;

/// `k` LCG steps.
pub open spec fn iter(s: u64, k: nat) -> u64
    decreases k,
{
    if k == 0 {
        s
    } else {
        step_spec(iter(s, (k - 1) as nat))
    }
}

/// `k` LCG steps backwards.
pub open spec fn back(s: u64, k: nat) -> u64
    decreases k,
{
    if k == 0 {
        s
    } else {
        masked_prev(back(s, (k - 1) as nat), ADD, INV, MASK)
    }
}

/// A 54-bit numerator as a double holds it: below 2^53 exactly, above that
/// rounded to an even numerator, ties going to an even mantissa.
pub open spec fn grid(n: u64) -> u64 {
    if n < HALF || n % 2 == 0 {
        n
    } else if (n / 2) % 2 == 1 {
        (n + 1) as u64
    } else {
        (n - 1) as u64
    }
}

/// The exact 54-bit numerator from two consecutive states.
pub open spec fn numerator(a: u64, b: u64) -> u64 {
    ((a / 0x20_0000) * 0x800_0000 + b / 0x20_0000) as u64
}

/// The `k`-th output from state `s`, as the double's numerator over 2^54.
pub open spec fn output(s: u64, k: nat) -> u64 {
    grid(numerator(iter(s, 2 * k + 1), iter(s, 2 * k + 2)))
}

/// The first `n` outputs from a seed (taken modulo 2^48).
pub open spec fn outputs(seed: u64, n: nat) -> Seq<u64> {
    Seq::new(n, |k: int| output(seed & MASK, k as nat))
}

/// The state whose high 27 bits are `hi` and low 21 bits `x`.
pub open spec fn candidate(hi: u64, x: u64) -> u64 {
    (hi * 0x20_0000 + x) as u64
}

/// Whether brute-force candidate `x` at anchor `a0` matches the anchor's low
/// half and, stepped back to the seed, reproduces every observed value.
pub open spec fn passes(obs: Seq<u64>, a0: nat, hi: u64, lo: u64, x: u64) -> bool {
    &&& step_spec(candidate(hi, x)) / 0x20_0000 == lo
    &&& all_close(outputs(back(candidate(hi, x), 2 * a0 + 1), obs.len()), obs, TOL)
}

fn step(s: u64) -> (r: u64)
    ensures
        r == step_spec(s),
        r <= MASK,
{
    proof {
        lemma_mask_is_mod(s.wrapping_mul(MULT).wrapping_add(ADD), MASK);
    }
    s.wrapping_mul(MULT).wrapping_add(ADD) & MASK
}

fn inv_mult() -> (r: u64)
    ensures
        r == INV,
{
    let mut x: u64 = 1;
    let mut i: usize = 0;
    while i < 6
        invariant
            i <= 6,
            x == newton(MULT, i as nat),
        decreases 6 - i,
    {
        x = x.wrapping_mul(2u64.wrapping_sub(MULT.wrapping_mul(x)));
        i = i + 1;
    }
    proof {
        lemma_newton_drand48();
        lemma_mask_is_mod(x, MASK);
    }
    x & MASK
}

fn prev(s: u64, inv: u64) -> (r: u64)
    requires
        s <= MASK,
    ensures
        r == masked_prev(s, ADD, inv, MASK),
        r <= MASK,
{
    proof {
        lemma_mask_is_mod(((s + MASK + 1 - ADD) as u64 & MASK).wrapping_mul(inv), MASK);
    }
    ((s + MASK + 1 - ADD) & MASK).wrapping_mul(inv) & MASK
}

/// The double's numerator for an exact 54-bit numerator.
fn to_grid(n: u64) -> (r: u64)
    requires
        n < 0x40_0000_0000_0000,
    ensures
        r == grid(n),
{
    if n < HALF || n % 2 == 0 {
        n
    } else if (n / 2) % 2 == 1 {
        n + 1
    } else {
        n - 1
    }
}

/// Every value at or above one half is an even numerator: the double lost the
/// 54th bit.
pub proof fn lemma_upper_half_even(s: u64, k: nat)
    ensures
        output(s, k) >= HALF ==> output(s, k) % 2 == 0,
        output(s, k) <= 0x40_0000_0000_0000,
{
    let a = iter(s, 2 * k + 1);
    let b = iter(s, 2 * k + 2);
    assert(a == step_spec(iter(s, 2 * k)));
    assert(b == step_spec(a));
    lemma_step_bound(iter(s, 2 * k));
    lemma_step_bound(a);
    lemma_numerator(a, b);
    lemma_grid_even(numerator(a, b));
}

/// Rounding leaves every numerator at or above 2^53 even and within 2^54.
proof fn lemma_grid_even(n: u64)
    requires
        n < 0x40_0000_0000_0000,
    ensures
        grid(n) >= HALF ==> grid(n) % 2 == 0,
        grid(n) <= 0x40_0000_0000_0000,
{
}

/// Rounding keeps a numerator below 2^53 and keeps the others at or above it.
proof fn lemma_grid_small(n: u64)
    requires
        n < 0x40_0000_0000_0000,
    ensures
        (grid(n) < HALF) == (n < HALF),
        n < HALF ==> grid(n) == n,
{
}

/// The numerator built from two states below 2^48, with its halves.
proof fn lemma_numerator(a: u64, b: u64)
    requires
        a <= MASK,
        b <= MASK,
    ensures
        numerator(a, b) == (a / 0x20_0000) * 0x800_0000 + b / 0x20_0000,
        numerator(a, b) < 0x40_0000_0000_0000,
        numerator(a, b) / 0x800_0000 == a / 0x20_0000,
        numerator(a, b) % 0x800_0000 == b / 0x20_0000,
{
    let n = (a / 0x20_0000) * 0x800_0000 + b / 0x20_0000;
    assert(a / 0x20_0000 < 0x800_0000);
    assert(b / 0x20_0000 < 0x800_0000);
    lemma_fundamental_div_mod_converse(n, 0x800_0000, (a / 0x20_0000) as int, (b / 0x20_0000) as int);
}

/// A step lands below 2^48.
proof fn lemma_step_bound(s: u64)
    ensures
        step_spec(s) <= MASK,
{
    lemma_mask_is_mod(s.wrapping_mul(MULT).wrapping_add(ADD), MASK);
}

/// Stepping back `k` times undoes `k` steps from a state below 2^48.
#[verifier::spinoff_prover]
#[verifier::rlimit(40)]
proof fn lemma_back_iter(s: u64, j: nat, k: nat)
    requires
        s <= MASK,
    ensures
        back(iter(s, j + k), k) == iter(s, j),
        iter(s, j) <= MASK,
    decreases k,
{
    if j > 0 {
        assert(iter(s, j) == step_spec(iter(s, (j - 1) as nat)));
        lemma_step_bound(iter(s, (j - 1) as nat));
    }
    if k > 0 {
        lemma_back_iter(s, j + 1, (k - 1) as nat);
        assert(j + k == (j + 1) + (k - 1) as nat);
        assert(back(iter(s, j + k), k) == masked_prev(back(iter(s, j + k), (k - 1) as nat), ADD, INV, MASK));
        assert(iter(s, j + 1) == step_spec(iter(s, j)));
        assert((MULT * INV) % (MASK + 1) == 1);
        lemma_masked_prev_after_step(iter(s, j), MULT, ADD, INV, MASK);
        lemma_mask_is_mod(iter(s, j), MASK);
    }
}

/// Generate `n` output numerators from `seed` (the 48-bit state before the
/// first output).
pub fn generate(seed: u64, n: usize) -> (out: Vec<u64>)
    ensures
        out@ == outputs(seed, n as nat),
{
    let mut state = seed & MASK;
    proof {
        lemma_mask_is_mod(seed, MASK);
    }
    let mut out: Vec<u64> = Vec::new();
    let mut k: usize = 0;
    while k < n
        invariant
            k <= n,
            state == iter(seed & MASK, 2 * k as nat),
            state <= MASK,
            out@ == Seq::new(k as nat, |j: int| output(seed & MASK, j as nat)),
        decreases n - k,
    {
        let sn = step(state);
        let hi = sn >> 21;
        state = step(sn);
        let lo = state >> 21;
        proof {
            let s = seed & MASK;
            assert(iter(s, 2 * k as nat + 1) == step_spec(iter(s, 2 * k as nat)));
            assert(iter(s, 2 * k as nat + 2) == step_spec(iter(s, 2 * k as nat + 1)));
            lemma_powers();
            lemma_shr_div(sn, 21);
            lemma_shr_div(state, 21);
            lemma_numerator(sn, state);
            lemma_shl_mul(hi, 27);
        }
        let d = to_grid((hi << 27) + lo);
        proof {
            assert(d == output(seed & MASK, k as nat));
        }
        out.push(d);
        k = k + 1;
        proof {
            assert(out@ =~= Seq::new(k as nat, |j: int| output(seed & MASK, j as nat)));
        }
    }
    out
}

/// Reproducing from any seed, the brute force at any exact anchor meets a
/// passing candidate: the anchor's first intermediate state itself.
proof fn lemma_true_candidate(st: u64, obs: Seq<u64>, a0: nat)
    requires
        a0 < obs.len(),
        obs[a0 as int] < HALF,
        outputs(st, obs.len()) == obs,
    ensures
        iter(st & MASK, 2 * a0 + 1) % 0x20_0000 < 0x20_0000,
        passes(
            obs,
            a0,
            obs[a0 as int] / 0x800_0000,
            obs[a0 as int] % 0x800_0000,
            (iter(st & MASK, 2 * a0 + 1) % 0x20_0000) as u64,
        ),
{
    let s0 = st & MASK;
    lemma_mask_is_mod(st, MASK);
    let sn = iter(s0, 2 * a0 + 1);
    let b = iter(s0, 2 * a0 + 2);
    lemma_back_iter(s0, 2 * a0 + 1, 0);
    lemma_back_iter(s0, 2 * a0 + 2, 0);
    assert(b == step_spec(sn));
    assert(obs[a0 as int] == output(s0, a0));
    lemma_numerator(sn, b);
    lemma_grid_small(numerator(sn, b));
    let hi = obs[a0 as int] / 0x800_0000;
    let lo = obs[a0 as int] % 0x800_0000;
    let x = (sn % 0x20_0000) as u64;
    assert(candidate(hi, x) == sn) by {
        lemma_fundamental_div_mod_converse(sn as int, 0x20_0000, (sn / 0x20_0000) as int, x as int);
    }
    assert(step_spec(candidate(hi, x)) / 0x20_0000 == lo);
    lemma_back_iter(s0, 0, 2 * a0 + 1);
    assert(iter(s0, 0) == s0);
    assert(back(candidate(hi, x), 2 * a0 + 1) == s0);
    lemma_mask_is_mod(s0, MASK);
    assert(outputs(s0, obs.len()) =~= outputs(st, obs.len()));
    lemma_close_self(obs, TOL);
}

/// Recover the 48-bit seed (state before the first output) from observed
/// numerators. Brute-forces the 21 hidden low bits of the first state at an
/// anchor value < 0.5, then steps back to the seed. Verified by full
/// reproduction.
/// `st` is the only state whose outputs are within [`TOL`] of the capture.
pub open spec fn pinned(st: u64, obs: Seq<u64>) -> bool {
    forall|t: u64| t <= MASK && #[trigger] all_close(outputs(t, obs.len()), obs, TOL) ==> t == st
}

pub fn recover(obs: &[u64]) -> (r: Option<u64>)
    ensures
        obs.len() < 3 ==> r is None,
        (forall|i: int| 0 <= i < obs.len() ==> obs@[i] >= HALF) ==> r is None,
        r matches Some(seed) ==> seed <= MASK && all_close(outputs(seed, obs.len() as nat), obs@, TOL),
        obs.len() >= 3 && (exists|i: int| 0 <= i < obs.len() && obs@[i] < HALF) && (exists|st: u64|
            outputs(st, obs.len() as nat) == obs@) ==> r is Some,
        forall|st: u64|
            obs.len() >= 3 && (exists|i: int| 0 <= i < obs.len() && obs@[i] < HALF) && outputs(st, obs.len() as nat)
                == obs@ && #[trigger] pinned(st, obs@) ==> r == Some(st),
{
    if obs.len() < 3 {
        return None;
    }
    let mut a0: usize = 0;
    while a0 < obs.len() && obs[a0] >= HALF
        invariant
            a0 <= obs.len(),
            forall|i: int| 0 <= i < a0 ==> obs@[i] >= HALF,
        decreases obs.len() - a0,
    {
        a0 = a0 + 1;
    }
    if a0 == obs.len() {
        return None;
    }
    let n0 = obs[a0];
    let hi = n0 >> 27;
    let lo = n0 % 0x800_0000;
    proof {
        lemma_powers();
        lemma_shr_div(n0, 27);
        assert(hi < 0x400_0000);
    }
    let inv = inv_mult();
    let mut x: u64 = 0;
    while x < 0x20_0000
        invariant
            x <= 0x20_0000,
            obs.len() >= 3,
            a0 < obs.len(),
            forall|i: int| 0 <= i < a0 ==> obs@[i] >= HALF,
            n0 == obs@[a0 as int],
            n0 < HALF,
            hi == n0 / 0x800_0000,
            hi < 0x400_0000,
            lo == n0 % 0x800_0000,
            inv == INV,
            forall|y: u64| y < x ==> !#[trigger] passes(obs@, a0 as nat, hi, lo, y),
        decreases 0x20_0000 - x,
    {
        proof {
            lemma_powers();
            lemma_shl_mul(1, 21);
            lemma_or_low(hi, x, 21);
            lemma_shl_mul(hi, 21);
        }
        let s1 = (hi << 21) | x;
        assert(s1 == candidate(hi, x));
        let t = step(s1);
        proof {
            lemma_shr_div(t, 21);
        }
        if t >> 21 == lo {
            let mut seed = s1;
            let mut i: usize = 0;
            while i < a0
                invariant
                    i <= a0,
                    seed == back(s1, 2 * i as nat),
                    seed <= MASK,
                    inv == INV,
                decreases a0 - i,
            {
                seed = prev(seed, inv);
                seed = prev(seed, inv);
                i = i + 1;
                proof {
                    assert(back(s1, 2 * i as nat) == masked_prev(back(s1, (2 * i - 1) as nat), ADD, INV, MASK));
                }
            }
            seed = prev(seed, inv);
            let regen = generate(seed, obs.len());
            if all_within(regen.as_slice(), obs, TOL) {
                return Some(seed);
            }
        }
        x = x + 1;
    }
    proof {
        if exists|st: u64| outputs(st, obs.len() as nat) == obs@ {
            let st = choose|st: u64| outputs(st, obs.len() as nat) == obs@;
            lemma_true_candidate(st, obs@, a0 as nat);
        }
    }
    None
}

} // verus!
