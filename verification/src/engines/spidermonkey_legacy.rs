//! Legacy SpiderMonkey `Math.random()` — Firefox before ~49 (e.g. 1.0, 3.x).
//!
//! A drand48-style 48-bit LCG (identical constants to `java.util.Random`):
//! ```text
//! state = (state * 0x5DEECE66D + 0xB) mod 2^48
//! next(bits) = state >> (48 - bits)        // after stepping
//! double = ((next(26) << 27) + next(27)) * 2^-53
//! ```
//! So each emitted double consumes TWO LCG steps. Outputs are handled here as
//! their 53-bit numerators over 2^53.
//!
//! Recovery is a 2^22 brute force over the low bits of the first intermediate
//! state, validated against the rest of the sequence — milliseconds in practice.
use vstd::prelude::*;
use crate::engines::{all_close, all_within, close, lemma_close_self};
use crate::modular::{
    lemma_mask_is_mod, lemma_masked_prev_after_step, lemma_masked_step_after_prev, lemma_newton_drand48, lemma_or_low,
    lemma_powers, lemma_shl_mul, lemma_shr_div, masked_prev, masked_step, newton,
};
use vstd::arithmetic::div_mod::lemma_fundamental_div_mod_converse;

verus! {

/// The LCG multiplier.
pub const MULT: u64 = 0x5_deec_e66d;

/// The LCG increment.
pub const ADD: u64 = 0xb;

/// The 48-bit state mask.
pub const MASK: u64 = 0xffff_ffff_ffff;

/// The inverse of [`MULT`] modulo 2^48.
pub const INV: u64 = 0xdfe0_5bcb_1365;

/// Largest numerator difference the reproduction check accepts (1e-12 on the
/// 2^-53 grid).
pub const TOL: u64 = 9007;

/// One LCG step.
pub open spec fn step_spec(s: u64) -> u64 {
    masked_step(s, MULT, ADD, MASK)
}

/// One LCG step backwards.
pub open spec fn prev_spec(s: u64) -> u64 {
    masked_prev(s, ADD, INV, MASK)
}

/// `k` LCG steps.
pub open spec fn iter(s: u64, k: nat) -> u64
    decreases k,
{
    if k == 0 {
        s
    } else {
        step_spec(iter(s, (k - 1) as nat))
    }
}

/// The numerator over 2^53 built from two consecutive states:
/// `next(26) · 2^27 + next(27)`.
pub open spec fn numerator(a: u64, b: u64) -> u64 {
    ((a / 0x40_0000) * 0x800_0000 + b / 0x20_0000) as u64
}

/// The `k`-th output from state `s` (two steps per output).
pub open spec fn output(s: u64, k: nat) -> u64 {
    numerator(iter(s, 2 * k + 1), iter(s, 2 * k + 2))
}

/// The first `n` outputs from a seed (taken modulo 2^48).
pub open spec fn outputs(seed: u64, n: nat) -> Seq<u64> {
    Seq::new(n, |k: int| output(seed & MASK, k as nat))
}

/// The first intermediate state whose high 26 bits are `hi` and low 22 bits `x`.
pub open spec fn candidate(hi: u64, x: u64) -> u64 {
    (hi * 0x40_0000 + x) as u64
}

/// Whether the brute-force candidate `x` both matches the anchor's low half and
/// reproduces every observed value.
pub open spec fn passes(obs: Seq<u64>, hi: u64, lo: u64, x: u64) -> bool {
    &&& step_spec(candidate(hi, x)) / 0x20_0000 == lo
    &&& all_close(outputs(prev_spec(candidate(hi, x)), obs.len()), obs, TOL)
}

fn step(s: u64) -> (r: u64)
    ensures
        r == step_spec(s),
        r <= MASK,
{
    proof {
        lemma_mask_is_mod(s.wrapping_mul(MULT).wrapping_add(ADD), MASK);
    }
    s.wrapping_mul(MULT).wrapping_add(ADD) & MASK
}

/// Multiplicative inverse of MULT modulo 2^48 (MULT is odd), via Newton iteration.
#[verifier::spinoff_prover]
fn inv_mult() -> (r: u64)
    ensures
        r == INV,
{
    let mut x: u64 = 1;
    let mut i: usize = 0;
    while i < 6
        invariant
            i <= 6,
            x == newton(MULT, i as nat),
        decreases 6 - i,
    {
        x = x.wrapping_mul(2u64.wrapping_sub(MULT.wrapping_mul(x)));
        i = i + 1;
    }
    proof {
        lemma_newton_drand48();
        assert(x == 0x7b13_dfe0_5bcb_1365u64);
        lemma_mask_is_mod(x, MASK);
        assert((0x7b13_dfe0_5bcb_1365u64 as int) % 0x1_0000_0000_0000int == INV);
    }
    x & MASK
}

fn prev(s: u64, inv: u64) -> (r: u64)
    requires
        s <= MASK,
    ensures
        r == masked_prev(s, ADD, inv, MASK),
        r <= MASK,
{
    proof {
        lemma_mask_is_mod(((s + MASK + 1 - ADD) as u64 & MASK).wrapping_mul(inv), MASK);
    }
    ((s + MASK + 1 - ADD) & MASK).wrapping_mul(inv) & MASK
}

/// The numerator built from two states below 2^48, with its halves.
proof fn lemma_numerator(a: u64, b: u64)
    requires
        a <= MASK,
        b <= MASK,
    ensures
        numerator(a, b) == (a / 0x40_0000) * 0x800_0000 + b / 0x20_0000,
        numerator(a, b) < 0x20_0000_0000_0000,
        numerator(a, b) / 0x800_0000 == a / 0x40_0000,
        numerator(a, b) % 0x800_0000 == b / 0x20_0000,
{
    let n = (a / 0x40_0000) * 0x800_0000 + b / 0x20_0000;
    assert(a / 0x40_0000 < 0x400_0000);
    assert(b / 0x20_0000 < 0x800_0000);
    assert(n < 0x20_0000_0000_0000);
    lemma_fundamental_div_mod_converse(n, 0x800_0000, (a / 0x40_0000) as int, (b / 0x20_0000) as int);
}

/// One output from the state before it, returning the numerator and the
/// advanced state.
fn next_double(state: u64) -> (r: (u64, u64))
    requires
        state <= MASK,
    ensures
        r.0 == numerator(step_spec(state), step_spec(step_spec(state))),
        r.1 == step_spec(step_spec(state)),
        r.1 <= MASK,
{
    let a = step(state);
    let b = step(a);
    proof {
        lemma_powers();
        lemma_shr_div(a, 22);
        lemma_shr_div(b, 21);
        assert(a / 0x40_0000 < 0x400_0000);
        lemma_shl_mul(a >> 22, 27);
        lemma_numerator(a, b);
    }
    (((a >> 22) << 27) + (b >> 21), b)
}

/// Generate `n` numerators starting from `seed` (the 48-bit state before the
/// first emitted value).
pub fn generate(seed: u64, n: usize) -> (out: Vec<u64>)
    ensures
        out@ == outputs(seed, n as nat),
{
    let mut state = seed & MASK;
    proof {
        lemma_mask_is_mod(seed, MASK);
    }
    let mut out: Vec<u64> = Vec::new();
    let mut k: usize = 0;
    while k < n
        invariant
            k <= n,
            state == iter(seed & MASK, 2 * k as nat),
            state <= MASK,
            out@ == Seq::new(k as nat, |j: int| output(seed & MASK, j as nat)),
        decreases n - k,
    {
        let (d, ns) = next_double(state);
        proof {
            let s = seed & MASK;
            assert(iter(s, 2 * k as nat + 1) == step_spec(iter(s, 2 * k as nat)));
            assert(iter(s, 2 * k as nat + 2) == step_spec(iter(s, 2 * k as nat + 1)));
            assert(d == output(s, k as nat));
        }
        out.push(d);
        state = ns;
        k = k + 1;
        proof {
            assert(out@ =~= Seq::new(k as nat, |j: int| output(seed & MASK, j as nat)));
        }
    }
    out
}

/// Stepping back undoes a step: the 48-bit state is recovered exactly.
pub proof fn lemma_prev_after_step(s: u64)
    ensures
        prev_spec(step_spec(s)) == s & MASK,
{
    assert((MULT * INV) % (MASK + 1) == 1) by (nonlinear_arith);
    lemma_masked_prev_after_step(s, MULT, ADD, INV, MASK);
}

/// A step undoes a step back: every 48-bit state has exactly one predecessor.
pub proof fn lemma_step_after_prev(t: u64)
    requires
        t <= MASK,
    ensures
        step_spec(prev_spec(t)) == t,
{
    assert((INV * MULT) % (MASK + 1) == 1) by (nonlinear_arith);
    lemma_masked_step_after_prev(t, MULT, ADD, INV, MASK);
}

/// For any seed, the brute force meets a candidate that passes: the one built
/// from the first intermediate state itself.
proof fn lemma_true_candidate(st: u64, obs: Seq<u64>)
    requires
        obs.len() >= 1,
        outputs(st, obs.len()) == obs,
    ensures
        obs[0] < 0x20_0000_0000_0000,
        iter(st & MASK, 1) % 0x40_0000 < 0x40_0000,
        passes(obs, obs[0] / 0x800_0000, obs[0] % 0x800_0000, (iter(st & MASK, 1) % 0x40_0000) as u64),
{
    let s0 = st & MASK;
    lemma_mask_is_mod(st, MASK);
    let a = iter(s0, 1);
    let b = iter(s0, 2);
    assert(iter(s0, 0) == s0);
    assert(a == step_spec(s0));
    assert(b == step_spec(a));
    lemma_mask_is_mod(s0.wrapping_mul(MULT).wrapping_add(ADD), MASK);
    lemma_mask_is_mod(a.wrapping_mul(MULT).wrapping_add(ADD), MASK);
    assert(obs[0] == output(s0, 0));
    lemma_numerator(a, b);
    let hi = obs[0] / 0x800_0000;
    let lo = obs[0] % 0x800_0000;
    let x = (a % 0x40_0000) as u64;
    assert(candidate(hi, x) == a) by {
        lemma_fundamental_div_mod_converse(a as int, 0x40_0000, (a / 0x40_0000) as int, x as int);
    }
    assert(step_spec(candidate(hi, x)) / 0x20_0000 == lo);
    assert((MULT * INV) % (MASK + 1) == 1);
    lemma_masked_prev_after_step(s0, MULT, ADD, INV, MASK);
    lemma_mask_is_mod(s0, MASK);
    assert(prev_spec(candidate(hi, x)) == s0);
    assert(s0 & MASK == s0);
    assert(outputs(s0, obs.len()) =~= outputs(st, obs.len()));
    lemma_close_self(obs, TOL);
}

/// Recover the 48-bit seed (state before the first value) from observed
/// numerators. Verified by full reproduction, so `Some` is conclusive.
/// `st` is the only state whose outputs are within [`TOL`] of the capture.
pub open spec fn pinned(st: u64, obs: Seq<u64>) -> bool {
    forall|t: u64| t <= MASK && #[trigger] all_close(outputs(t, obs.len()), obs, TOL) ==> t == st
}

pub fn recover(obs: &[u64]) -> (r: Option<u64>)
    ensures
        obs.len() < 2 ==> r is None,
        r matches Some(seed) ==> seed <= MASK && all_close(outputs(seed, obs.len() as nat), obs@, TOL),
        obs.len() >= 2 && (exists|st: u64| outputs(st, obs.len() as nat) == obs@) ==> r is Some,
        forall|st: u64|
            obs.len() >= 2 && outputs(st, obs.len() as nat) == obs@ && #[trigger] pinned(st, obs@) ==> r == Some(st),
{
    if obs.len() < 2 {
        return None;
    }
    let m0 = obs[0];
    if m0 >= 0x20_0000_0000_0000 {
        proof {
            if exists|st: u64| outputs(st, obs.len() as nat) == obs@ {
                let st = choose|st: u64| outputs(st, obs.len() as nat) == obs@;
                lemma_true_candidate(st, obs@);
            }
        }
        return None;
    }
    let hi0 = m0 >> 27;
    let lo0 = m0 % 0x800_0000;
    proof {
        lemma_powers();
        lemma_shr_div(m0, 27);
        assert(hi0 < 0x400_0000);
    }
    let inv = inv_mult();
    let mut x: u64 = 0;
    while x < 0x40_0000
        invariant
            x <= 0x40_0000,
            obs.len() >= 2,
            m0 == obs@[0],
            hi0 == m0 / 0x800_0000,
            hi0 < 0x400_0000,
            lo0 == m0 % 0x800_0000,
            inv == INV,
            forall|y: u64| y < x ==> !#[trigger] passes(obs@, hi0, lo0, y),
        decreases 0x40_0000 - x,
    {
        proof {
            lemma_powers();
            lemma_shl_mul(1, 22);
            lemma_or_low(hi0, x, 22);
            lemma_shl_mul(hi0, 22);
        }
        let s1 = (hi0 << 22) | x;
        assert(s1 == candidate(hi0, x));
        let t = step(s1);
        proof {
            lemma_shr_div(t, 21);
        }
        if t >> 21 == lo0 {
            let seed = prev(s1, inv);
            let regen = generate(seed, obs.len());
            if all_within(regen.as_slice(), obs, TOL) {
                return Some(seed);
            }
        }
        x = x + 1;
    }
    proof {
        if exists|st: u64| outputs(st, obs.len() as nat) == obs@ {
            let st = choose|st: u64| outputs(st, obs.len() as nat) == obs@;
            lemma_true_candidate(st, obs@);
        }
    }
    None
}

} // verus!
