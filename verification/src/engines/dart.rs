//! Dart `Random` — the generator behind **Flutter** apps (`dart:math`).
//!
//! Flutter has no `Math.random()` of its own; every Flutter app draws from
//! Dart's `Random`, a **Multiply-With-Carry** generator with base 2³² and
//! multiplier `A = 0xffffda61`, identical on every Flutter version and platform
//! (VM / AOT / dart2wasm, and dart2js when seeded).
//!
//! ```text
//! state : u64
//! next_state():  state = A*(state & 0xffffffff) + (state >> 32)
//! nextDouble():  a = next_state(); bits26 = a & (2^26-1)
//!                b = next_state(); bits27 = b & (2^27-1)
//!                return (bits26 * 2^27 + bits27) / 2^53
//! ```
//! Here each double is handled as its 53-bit numerator `bits26 * 2^27 + bits27`.
//!
//! `Random(seed)` runs the seed through the Thomas Wang 64-bit mix ([`mix64`],
//! a bijection) and then cranks four warm-up `next_state` calls. Because
//! `mix64` is invertible, a capture taken from a fresh `Random(seed)` recovers
//! the exact user seed ([`recover_seed`]).
use vstd::prelude::*;

use crate::engines::{all_close, all_within};
use crate::modular::{
    lemma_newton_21, lemma_newton_265, lemma_newton_shl21, lemma_newton_shl31, lemma_wmul_cancel,
    lemma_wmul_injective, newton,
};
use crate::prng::xorshift128plus::lemma_xor_shr_injective;
use vstd::arithmetic::div_mod::{lemma_basic_div, lemma_div_denominator};
use vstd::arithmetic::power2::{
    lemma2_to64, lemma_pow2_adds, lemma_pow2_pos, lemma_pow2_strictly_increases, pow2,
};
use vstd::bits::lemma_u64_shr_is_div;

verus! {

/// MWC multiplier (base 2³²). Numerical Recipes 3rd ed., p.348 B1.
pub const A: u64 = 0xffff_da61;

/// `A = 2³² − C`, so one step is `lo' = (hi − C·lo) mod 2³²`.
pub const C: u64 = 0x259f;

pub const MASK32: u64 = 0xffff_ffff;

/// Largest value `next_state` can produce: `A·(2³²−1) + (2³²−1)`.
pub const MAX_NEXT: u64 = 0xffff_da61_0000_259e;

/// One MWC step on a state value.
pub open spec fn next_spec(s: u64) -> u64 {
    (A * (s & MASK32) + (s >> 32u64)) as u64
}

/// `k` MWC steps.
pub open spec fn iter(s: u64, k: nat) -> u64
    decreases k,
{
    if k == 0 {
        s
    } else {
        next_spec(iter(s, (k - 1) as nat))
    }
}

/// The predecessor [`prev_state`] picks: for a state below `A·2³²` the one with a
/// carry below `A` (the canonical MWC form), for the few states above it the
/// one with the largest low word, and the state itself when it has none.
pub open spec fn prev_spec(s: u64) -> u64 {
    if s < 0xffff_da61_0000_0000u64 {
        ((s % A) * 0x1_0000_0000 + s / A) as u64
    } else if s <= MAX_NEXT {
        ((s - A * 0xffff_ffffu64) * 0x1_0000_0000 + 0xffff_ffffu64) as u64
    } else {
        s
    }
}

/// `k` backward steps.
pub open spec fn back(s: u64, k: nat) -> u64
    decreases k,
{
    if k == 0 {
        s
    } else {
        prev_spec(back(s, (k - 1) as nat))
    }
}

/// The 53-bit numerator of the `k`-th `nextDouble()` from `s`.
pub open spec fn output(s: u64, k: nat) -> u64 {
    ((iter(s, 2 * k + 1) & 0x3ff_ffffu64) * 0x800_0000 + (iter(s, 2 * k + 2) & 0x7ff_ffffu64)) as u64
}

/// The first `n` outputs from `s`.
pub open spec fn outputs(s: u64, n: nat) -> Seq<u64> {
    Seq::new(n, |k: int| output(s, k as nat))
}

/// Thomas Wang's 64-bit mix without the zero guard.
pub open spec fn mix_raw(n0: u64) -> u64 {
    let n1 = (!n0).wrapping_add(n0 << 21u64);
    let n2 = n1 ^ (n1 >> 24u64);
    let n3 = n2.wrapping_mul(265);
    let n4 = n3 ^ (n3 >> 14u64);
    let n5 = n4.wrapping_mul(21);
    let n6 = n5 ^ (n5 >> 28u64);
    n6.wrapping_add(n6 << 31u64)
}

/// Dart's `mix64`: the Wang mix, with a zero result replaced by `0x5a17`.
pub open spec fn mix64_spec(n: u64) -> u64 {
    if mix_raw(n) == 0 {
        0x5a17
    } else {
        mix_raw(n)
    }
}

/// The pre-image of `m` under the Wang mix.
pub open spec fn unmix(m: u64) -> u64 {
    choose|r: u64| mix_raw(r) == m
}

proof fn lemma_split(s: u64)
    by (bit_vector)
    ensures
        s & 0xffff_ffffu64 <= 0xffff_ffffu64,
        s >> 32u64 <= 0xffff_ffffu64,
        s == (s >> 32u64) * 0x1_0000_0000u64 + (s & 0xffff_ffffu64),
{
}

proof fn lemma_pack(hi: u64, lo: u64)
    by (bit_vector)
    requires
        hi <= 0xffff_ffffu64,
        lo <= 0xffff_ffffu64,
    ensures
        (hi << 32u64) | lo == hi * 0x1_0000_0000u64 + lo,
        ((hi << 32u64) | lo) & 0xffff_ffffu64 == lo,
        ((hi << 32u64) | lo) >> 32u64 == hi,
{
}

/// `next_state` never overflows and is bounded by [`MAX_NEXT`].
proof fn lemma_next_bound(s: u64)
    ensures
        A * (s & MASK32) + (s >> 32u64) <= MAX_NEXT,
        next_spec(s) == A * (s & MASK32) + (s >> 32u64),
{
    lemma_split(s);
}

/// One MWC step: `state = A·(state_lo) + state_hi`.
pub fn next_state(s: u64) -> (r: u64)
    ensures
        r == next_spec(s),
        r <= MAX_NEXT,
{
    proof {
        lemma_next_bound(s);
    }
    A.wrapping_mul(s & MASK32).wrapping_add(s >> 32)
}

/// Invert one MWC step. `s' = A·lo + hi` with `lo, hi < 2³²`; since `A ≈ 2³²`,
/// `lo ≈ s'/A` and at most a couple of candidates need checking. States that
/// no step produces are returned unchanged.
pub fn prev_state(s: u64) -> (r: u64)
    ensures
        r == prev_spec(s),
        s <= MAX_NEXT ==> next_spec(r) == s,
{
    let base = s / A;
    let mut d: u64 = 0;
    while d <= 2
        invariant
            d <= 3,
            base == s / A,
            s < 0xffff_da61_0000_0000u64 ==> d == 0,
            0xffff_da61_0000_0000u64 <= s <= MAX_NEXT ==> d <= 1,
        decreases 3 - d,
    {
        let lo = base.wrapping_sub(d);
        if lo <= MASK32 {
            proof {
                assert(lo == base - d);
                assert(A * lo <= A * base);
                assert(A * base <= s);
            }
            let hi = s.wrapping_sub(A.wrapping_mul(lo));
            proof {
                assert(hi == s - A * lo);
            }
            if hi <= MASK32 {
                let prev = (hi << 32) | lo;
                proof {
                    lemma_pack(hi, lo);
                    lemma_next_bound(prev);
                }
                if next_state(prev) == s {
                    proof {
                        if s < 0xffff_da61_0000_0000u64 {
                            assert(hi == s % A);
                        } else {
                            assert(s <= MAX_NEXT) by {
                                lemma_next_bound(prev);
                            }
                            if d == 0 {
                                assert(lo == 0x1_0000_0000u64);
                            }
                            assert(d == 1);
                        }
                    }
                    return prev;
                }
            }
        }
        proof {
            if s < 0xffff_da61_0000_0000u64 {
                assert(d != 0) by {
                    if d == 0 {
                        assert(lo == s / A);
                        assert(lo <= MASK32);
                        let hi = (s - A * lo) as u64;
                        assert(hi == s % A);
                        lemma_pack(hi, lo);
                        lemma_next_bound((hi << 32u64) | lo);
                    }
                }
            }
            if 0xffff_da61_0000_0000u64 <= s <= MAX_NEXT {
                assert(d != 1) by {
                    if d == 1 {
                        assert(base == 0x1_0000_0000u64);
                        assert(lo == 0xffff_ffffu64);
                        let hi = (s - A * lo) as u64;
                        assert(hi <= MASK32);
                        lemma_pack(hi, lo);
                        lemma_next_bound((hi << 32u64) | lo);
                    }
                }
            }
        }
        d = d + 1;
    }
    s
}

/// The canonical predecessor of a canonical state's successor is the state
/// itself: stepping back undoes a step from any state whose carry is below `A`.
pub proof fn lemma_prev_after_next(s: u64)
    requires
        (s >> 32u64) < A,
    ensures
        prev_spec(next_spec(s)) == s,
{
    lemma_split(s);
    lemma_next_bound(s);
    let lo = s & MASK32;
    let hi = s >> 32u64;
    let t = next_spec(s);
    assert(t == A * lo + hi);
    assert(t < 0xffff_da61_0000_0000u64);
    assert(t / A == lo && t % A == hi) by {
        vstd::arithmetic::div_mod::lemma_fundamental_div_mod_converse(t as int, A as int, lo as int, hi as int);
    }
}

/// Every state that a step can produce is produced by its chosen predecessor.
pub proof fn lemma_next_after_prev(s: u64)
    requires
        s <= MAX_NEXT,
    ensures
        next_spec(prev_spec(s)) == s,
{
    if s < 0xffff_da61_0000_0000u64 {
        let hi = (s % A) as u64;
        let lo = (s / A) as u64;
        lemma_pack(hi, lo);
        assert(prev_spec(s) == (hi << 32u64) | lo);
        lemma_next_bound((hi << 32u64) | lo);
    } else {
        let lo = 0xffff_ffffu64;
        let hi = (s - A * lo) as u64;
        lemma_pack(hi, lo);
        assert(prev_spec(s) == (hi << 32u64) | lo);
        lemma_next_bound((hi << 32u64) | lo);
    }
}

/// `iter(s, k + 1) == iter(next(s), k)`.
pub proof fn lemma_iter_shift(s: u64, k: nat)
    ensures
        iter(s, k + 1) == iter(next_spec(s), k),
    decreases k,
{
    if k > 0 {
        lemma_iter_shift(s, (k - 1) as nat);
        assert(iter(s, k + 1) == next_spec(iter(s, k)));
        assert(iter(next_spec(s), k) == next_spec(iter(next_spec(s), (k - 1) as nat)));
    } else {
        assert(iter(s, 1) == next_spec(iter(s, 0)));
    }
}

/// The outputs of a state depend only on its successor.
pub proof fn lemma_outputs_same_successor(a: u64, b: u64, n: nat)
    requires
        next_spec(a) == next_spec(b),
    ensures
        outputs(a, n) == outputs(b, n),
{
    assert forall|k: int| 0 <= k < n implies #[trigger] outputs(a, n)[k] == outputs(b, n)[k] by {
        lemma_iter_shift(a, (2 * k) as nat);
        lemma_iter_shift(b, (2 * k) as nat);
        lemma_iter_shift(a, (2 * k + 1) as nat);
        lemma_iter_shift(b, (2 * k + 1) as nat);
    }
}

proof fn lemma_numerator(a: u64, b: u64)
    by (bit_vector)
    ensures
        (a & 0x3ff_ffffu64) * 0x800_0000u64 + (b & 0x7ff_ffffu64) < 0x20_0000_0000_0000u64,
        (((a & 0x3ff_ffffu64) * 0x800_0000u64 + (b & 0x7ff_ffffu64)) as u64) >> 27u64 == a
            & 0x3ff_ffffu64,
        (((a & 0x3ff_ffffu64) * 0x800_0000u64 + (b & 0x7ff_ffffu64)) as u64) & 0x7ff_ffffu64 == b
            & 0x7ff_ffffu64,
{
}

/// Generate `n` numerators (over 2⁵³) from `state` (the state *before* the first
/// output).
pub fn generate(state: u64, n: usize) -> (out: Vec<u64>)
    ensures
        out@ == outputs(state, n as nat),
{
    let mut st = state;
    let mut out: Vec<u64> = Vec::new();
    let mut k: usize = 0;
    while k < n
        invariant
            k <= n,
            out.len() == k,
            st == iter(state, 2 * k as nat),
            forall|j: int| 0 <= j < k ==> #[trigger] out@[j] == output(state, j as nat),
        decreases n - k,
    {
        st = next_state(st);
        let bits26 = st & 0x3ff_ffff;
        st = next_state(st);
        let bits27 = st & 0x7ff_ffff;
        proof {
            lemma_numerator(iter(state, (2 * k + 1) as nat), st);
        }
        out.push(bits26 * 0x800_0000 + bits27);
        k = k + 1;
    }
    proof {
        assert(out@ =~= outputs(state, n as nat));
    }
    out
}

/// The state a fresh `Random(seed)` starts from: `mix64(seed)` then four
/// warm-up steps.
pub fn seeded(seed: u64) -> (r: u64)
    ensures
        r == iter(mix64_spec(seed), 4),
{
    let mut s = mix64(seed);
    let mut i: usize = 0;
    while i < 4
        invariant
            i <= 4,
            s == iter(mix64_spec(seed), i as nat),
        decreases 4 - i,
    {
        s = next_state(s);
        i = i + 1;
    }
    s
}

/// Agreement tolerance on 53-bit numerators when checking a reproduction
/// (the double comparison `|a - b| < 1e-15` at the 2⁻⁵³ grid).
pub const TOL: u64 = 9;

/// The full state after the first step that recovery reconstructs from the
/// first observed numerator `n0` and guesses `h1` (6 bits) and `h2` (5 bits)
/// for the high bits of the two low words it only partly exposes.
pub open spec fn candidate(n0: u64, h1: u64, h2: u64) -> u64 {
    let lo1 = (h1 << 26u64) | (n0 >> 27u64);
    let lo2 = (h2 << 27u64) | (n0 & 0x7ff_ffffu64);
    let hi1 = ((lo2 + C * lo1) as u64) & MASK32;
    (hi1 << 32u64) | lo1
}

proof fn lemma_candidate_bounds(n0: u64, h1: u64, h2: u64)
    by (bit_vector)
    requires
        h1 < 64,
        h2 < 32,
    ensures
        (h1 << 26u64) | (n0 >> 27u64) < 0x20_0000_0000u64,
        (h2 << 27u64) | (n0 & 0x7ff_ffffu64) <= 0xffff_ffffu64,
{
}

proof fn lemma_low_word_split(x: u64)
    by (bit_vector)
    ensures
        ((((x & 0xffff_ffffu64) >> 26u64) << 26u64) | ((x & 0xffff_ffffu64) & 0x3ff_ffffu64))
            == x & 0xffff_ffffu64,
        ((((x & 0xffff_ffffu64) >> 27u64) << 27u64) | ((x & 0xffff_ffffu64) & 0x7ff_ffffu64))
            == x & 0xffff_ffffu64,
        (x & 0xffff_ffffu64) >> 26u64 < 64,
        (x & 0xffff_ffffu64) >> 27u64 < 32,
        (x & 0xffff_ffffu64) & 0x3ff_ffffu64 == x & 0x3ff_ffffu64,
        (x & 0xffff_ffffu64) & 0x7ff_ffffu64 == x & 0x7ff_ffffu64,
{
}

/// The guesses that match a generating state lead back to that state's successor.
proof fn lemma_true_candidate(st: u64) -> (hs: (u64, u64))
    ensures
        hs.0 < 64,
        hs.1 < 32,
        next_spec(prev_spec(candidate(output(st, 0), hs.0, hs.1))) == next_spec(st),
{
    let s1 = iter(st, 1);
    let s2 = iter(st, 2);
    assert(iter(st, 0) == st);
    assert(s1 == next_spec(st));
    lemma_next_bound(st);
    assert(s2 == next_spec(s1));
    let n0 = output(st, 0);
    lemma_numerator(s1, s2);
    lemma_low_word_split(s1);
    lemma_low_word_split(s2);
    let h1 = (s1 & MASK32) >> 26u64;
    let h2 = (s2 & MASK32) >> 27u64;
    let lo1 = (h1 << 26u64) | (n0 >> 27u64);
    let lo2 = (h2 << 27u64) | (n0 & 0x7ff_ffffu64);
    assert(lo1 == s1 & MASK32);
    assert(lo2 == s2 & MASK32);
    let hi = s1 >> 32u64;
    lemma_split(s1);
    lemma_split(s2);
    lemma_next_bound(s1);
    // lo2 + C·lo1 == hi + (lo1 - k)·2³² where k is the high word of s2.
    let k = s2 >> 32u64;
    let v = lo2 + C * lo1;
    assert(v == hi + (lo1 - k) * 0x1_0000_0000);
    assert(0 <= v < 0x10_0000_0000_0000);
    let vv = v as u64;
    lemma_split(vv);
    vstd::arithmetic::div_mod::lemma_fundamental_div_mod_converse(
        v,
        0x1_0000_0000,
        (lo1 - k) as int,
        hi as int,
    );
    vstd::arithmetic::div_mod::lemma_fundamental_div_mod_converse(
        v,
        0x1_0000_0000,
        (vv >> 32u64) as int,
        (vv & MASK32) as int,
    );
    assert(vv & MASK32 == hi);
    lemma_pack(hi, lo1);
    assert(candidate(n0, h1, h2) == s1);
    lemma_next_after_prev(s1);
    (h1, h2)
}

/// Recover the full 64-bit MWC state from observed numerators — closed-form, no
/// solver. Each `nextDouble` exposes the low **26** bits of one state's `lo`
/// word and the low **27** bits of the next. Because `A = 2³² − C`, one step is
/// `lo_{j+1} = (hi_j − C·lo_j) mod 2³²`, so `hi_j = (lo_{j+1} + C·lo_j) mod 2³²`:
/// two consecutive full `lo` words pin the entire 64-bit state. The first
/// output's two states give `lo₁` (missing 6 high bits) and `lo₂` (missing 5),
/// so a 2¹¹ brute over those high bits, verified by full reproduction, is
/// conclusive. Returns the state *before* the first observed output.
/// `st` is the only state whose outputs are within [`TOL`] of the capture.
pub open spec fn pinned(st: u64, obs: Seq<u64>) -> bool {
    forall|t: u64| #[trigger] all_close(outputs(t, obs.len()), obs, TOL) ==> t == st
}

pub fn recover(obs: &[u64]) -> (r: Option<u64>)
    ensures
        obs.len() < 3 ==> r is None,
        r matches Some(st) ==> all_close(outputs(st, obs.len() as nat), obs@, TOL),
        obs.len() >= 3 && (exists|st: u64| outputs(st, obs.len() as nat) == obs@) ==> r is Some,
        forall|st: u64|
            obs.len() >= 3 && outputs(st, obs.len() as nat) == obs@ && #[trigger] pinned(st, obs@) ==> r == Some(st),
{
    if obs.len() < 3 {
        return None;
    }
    let n0 = obs[0];
    let l1 = n0 >> 27;
    let l2 = n0 & 0x7ff_ffff;
    let mut h1: u64 = 0;
    while h1 < 64
        invariant
            h1 <= 64,
            obs.len() >= 3,
            n0 == obs@[0],
            l1 == n0 >> 27u64,
            l2 == n0 & 0x7ff_ffffu64,
            forall|a: u64, b: u64|
                a < h1 && b < 32 ==> !all_close(
                    outputs(prev_spec(#[trigger] candidate(n0, a, b)), obs.len() as nat),
                    obs@,
                    TOL,
                ),
        decreases 64 - h1,
    {
        let mut h2: u64 = 0;
        while h2 < 32
            invariant
                h1 < 64,
                h2 <= 32,
                obs.len() >= 3,
                n0 == obs@[0],
                l1 == n0 >> 27u64,
                l2 == n0 & 0x7ff_ffffu64,
                forall|a: u64, b: u64|
                    (a < h1 && b < 32) || (a == h1 && b < h2) ==> !all_close(
                        outputs(prev_spec(#[trigger] candidate(n0, a, b)), obs.len() as nat),
                        obs@,
                        TOL,
                    ),
            decreases 32 - h2,
        {
            proof {
                lemma_candidate_bounds(n0, h1, h2);
            }
            let lo1 = (h1 << 26) | l1;
            let lo2 = (h2 << 27) | l2;
            let hi1 = (lo2 + C * lo1) & MASK32;
            let s1 = (hi1 << 32) | lo1;
            let st = prev_state(s1);
            let regen = generate(st, obs.len());
            if all_within(regen.as_slice(), obs, TOL) {
                return Some(st);
            }
            h2 = h2 + 1;
        }
        h1 = h1 + 1;
    }
    proof {
        if exists|st: u64| outputs(st, obs.len() as nat) == obs@ {
            let st = choose|st: u64| outputs(st, obs.len() as nat) == obs@;
            assert(output(st, 0) == outputs(st, obs.len() as nat)[0]);
            let hs = lemma_true_candidate(st);
            let c = prev_spec(candidate(n0, hs.0, hs.1));
            lemma_outputs_same_successor(c, st, obs.len() as nat);
            assert(all_close(outputs(c, obs.len() as nat), obs@, TOL));
        }
    }
    None
}

/// Recover the exact user seed passed to `Random(seed)`, assuming the capture
/// begins at the generator's **first** `nextDouble` (no prior draws). Steps the
/// recovered state back through the four warm-up cranks and inverts `mix64`.
pub fn recover_seed(obs: &[u64]) -> (r: Option<u64>)
    ensures
        obs.len() < 3 ==> r is None,
        obs.len() >= 3 && (exists|st: u64| outputs(st, obs.len() as nat) == obs@) ==> r is Some,
        r matches Some(seed) ==> exists|st: u64|
            all_close(outputs(st, obs.len() as nat), obs@, TOL) && seed == unmix(#[trigger] back(st, 4)),
        forall|st: u64|
            obs.len() >= 3 && outputs(st, obs.len() as nat) == obs@ && #[trigger] pinned(st, obs@) ==> r == Some(
                unmix(back(st, 4)),
            ),
{
    let st = match recover(obs) {
        Some(st) => st,
        None => return None,
    };
    let mut s = st;
    let mut i: usize = 0;
    while i < 4
        invariant
            i <= 4,
            s == back(st, i as nat),
        decreases 4 - i,
    {
        s = prev_state(s);
        i = i + 1;
    }
    let seed = mix64_inv(s);
    proof {
        assert(all_close(outputs(st, obs.len() as nat), obs@, TOL));
        assert(seed == unmix(back(st, 4)));
    }
    Some(seed)
}

/// Thomas Wang's 64-bit integer mix, exactly as Dart's `_setupSeed` /
/// `mix64` (with the `n==0 → 0x5a17` guard the VM applies).
pub fn mix64(n: u64) -> (r: u64)
    ensures
        r == mix64_spec(n),
{
    let mut n = n;
    n = (!n).wrapping_add(n << 21);
    n ^= n >> 24;
    n = n.wrapping_mul(265);
    n ^= n >> 14;
    n = n.wrapping_mul(21);
    n ^= n >> 28;
    n = n.wrapping_add(n << 31);
    if n == 0 {
        0x5a17
    } else {
        n
    }
}

proof fn lemma_first_step_bv(r: u64)
    by (bit_vector)
    ensures
        !r == 0xffff_ffff_ffff_ffffu64 - r,
        r << 21u64 == r.wrapping_mul(0x200000u64),
{
}

proof fn lemma_last_step_bv(r: u64)
    by (bit_vector)
    ensures
        r.wrapping_add(r << 31u64) == r.wrapping_mul(0x8000_0001u64),
{
}

/// The first step of the mix is a multiplication by `2²¹ − 1` minus one.
proof fn lemma_first_step(r: u64)
    ensures
        (!r).wrapping_add(r << 21u64) == r.wrapping_mul(0x1fffffu64).wrapping_add(
            0xffff_ffff_ffff_ffffu64,
        ),
{
    lemma_first_step_bv(r);
}

proof fn lemma_inverse_constants()
    ensures
        newton(0x8000_0001, 6) == 0x3fff_ffff_8000_0001u64,
        newton(21, 6) == 0xcf3c_f3cf_3cf3_cf3du64,
        newton(265, 6) == 0xd38f_f08b_1c03_dd39u64,
        newton(0x1f_ffff, 6) == 0x7fff_fbff_ffdf_ffffu64,
        0x8000_0001u64.wrapping_mul(0x3fff_ffff_8000_0001u64) == 1,
        21u64.wrapping_mul(0xcf3c_f3cf_3cf3_cf3du64) == 1,
        265u64.wrapping_mul(0xd38f_f08b_1c03_dd39u64) == 1,
        0x1f_ffffu64.wrapping_mul(0x7fff_fbff_ffdf_ffffu64) == 1,
        0x3fff_ffff_8000_0001u64.wrapping_mul(0x8000_0001u64) == 1,
        0xcf3c_f3cf_3cf3_cf3du64.wrapping_mul(21u64) == 1,
        0xd38f_f08b_1c03_dd39u64.wrapping_mul(265u64) == 1,
        0x7fff_fbff_ffdf_ffffu64.wrapping_mul(0x1f_ffffu64) == 1,
{
    lemma_newton_shl31();
    lemma_newton_21();
    lemma_newton_265();
    lemma_newton_shl21();
}

/// Modular inverse of an odd `a` modulo 2⁶⁴ (Newton's iteration).
fn minv(a: u64) -> (x: u64)
    ensures
        x == newton(a, 6),
{
    let mut x: u64 = 1;
    let mut i: usize = 0;
    while i < 6
        invariant
            i <= 6,
            x == newton(a, i as nat),
        decreases 6 - i,
    {
        x = x.wrapping_mul(2u64.wrapping_sub(a.wrapping_mul(x)));
        i = i + 1;
    }
    x
}

/// `y >> t`, saturating to 0 for shifts of 64 and more.
spec fn shr_sat(y: u64, t: int) -> u64 {
    if t >= 64 {
        0
    } else {
        y >> (t as u64)
    }
}

/// One round of the fixed-point iteration shifts the gap between consecutive
/// iterates `s` bits further right.
proof fn lemma_xorshr_round(x: u64, y: u64, s: u64)
    by (bit_vector)
    requires
        0 < s < 64,
    ensures
        (y ^ (x >> s)) ^ y ^ ((y ^ (x >> s)) >> s) == (x ^ y ^ (x >> s)) >> s,
{
}

/// Shifting right twice is one shift by the sum, or zero past the word.
proof fn lemma_shr_twice(y: u64, t: u64, s: u64)
    requires
        s < 64,
        t < 64,
    ensures
        t + s < 64 ==> (y >> t) >> s == y >> ((t + s) as u64),
        t + s >= 64 ==> (y >> t) >> s == 0,
{
    let q = y >> t;
    lemma_u64_shr_is_div(y, t);
    lemma_u64_shr_is_div(q, s);
    lemma_pow2_pos(t as nat);
    lemma_pow2_pos(s as nat);
    lemma_div_denominator(y as int, pow2(t as nat) as int, pow2(s as nat) as int);
    lemma_pow2_adds(t as nat, s as nat);
    if t + s < 64 {
        lemma_u64_shr_is_div(y, (t + s) as u64);
    } else {
        lemma2_to64();
        if t + s > 64 {
            lemma_pow2_strictly_increases(64, (t + s) as nat);
        }
        lemma_basic_div(y as int, pow2((t + s) as nat) as int);
    }
}

/// A zero gap is a fixed point, and the first gap is `y >> s`.
proof fn lemma_xorshr_ends(x: u64, y: u64, s: u64)
    by (bit_vector)
    requires
        s < 64,
    ensures
        x ^ y ^ (x >> s) == 0 ==> x ^ (x >> s) == y,
        y ^ y ^ (y >> s) == y >> s,
        0u64 >> s == 0,
{
}

/// Invert `y = x ^ (x >> s)` for `0 < s < 64`.
fn inv_xorshr(y: u64, s: u32) -> (x: u64)
    requires
        0 < s < 64,
    ensures
        x ^ (x >> s) == y,
{
    let mut x = y;
    let rounds = 64 / s + 1;
    let mut i: u32 = 0;
    proof {
        lemma_xorshr_ends(y, y, s as u64);
    }
    while i < rounds
        invariant
            0 < s < 64,
            rounds == 64u32 / s + 1,
            i <= rounds,
            x ^ y ^ (x >> (s as u64)) == shr_sat(y, (i + 1) * s),
        decreases rounds - i,
    {
        proof {
            let t = (i + 1) * s;
            assert((i + 2) * s == (i + 1) * s + s) by (nonlinear_arith);
            lemma_xorshr_round(x, y, s as u64);
            lemma_xorshr_ends(x, y, s as u64);
            if t < 64 {
                lemma_shr_twice(y, t as u64, s as u64);
            }
        }
        x = y ^ (x >> s);
        i = i + 1;
    }
    proof {
        assert((i + 1) * s >= 64) by (nonlinear_arith)
            requires
                i == rounds,
                rounds == 64u32 / s + 1,
                0 < s,
        ;
        lemma_xorshr_ends(x, y, s as u64);
    }
    x
}

/// Undoing the mix step by step in reverse order gives a pre-image.
proof fn lemma_inverse_chain(m: u64, n6: u64, n5: u64, n4: u64, n3: u64, n2: u64, n1: u64, r: u64)
    requires
        n6 == m.wrapping_mul(0x3fff_ffff_8000_0001u64),
        n5 ^ (n5 >> 28u64) == n6,
        n4 == n5.wrapping_mul(0xcf3c_f3cf_3cf3_cf3du64),
        n3 ^ (n3 >> 14u64) == n4,
        n2 == n3.wrapping_mul(0xd38f_f08b_1c03_dd39u64),
        n1 ^ (n1 >> 24u64) == n2,
        r == n1.wrapping_add(1).wrapping_mul(0x7fff_fbff_ffdf_ffffu64),
    ensures
        mix_raw(r) == m,
{
    lemma_inverse_constants();
    lemma_first_step(r);
    lemma_wmul_cancel(n1.wrapping_add(1), 0x7fff_fbff_ffdf_ffffu64, 0x1f_ffffu64);
    let a1 = (!r).wrapping_add(r << 21u64);
    assert(a1 == n1);
    let a2 = a1 ^ (a1 >> 24u64);
    assert(a2 == n2);
    let a3 = a2.wrapping_mul(265);
    lemma_wmul_cancel(n3, 0xd38f_f08b_1c03_dd39u64, 265);
    assert(a3 == n3);
    let a4 = a3 ^ (a3 >> 14u64);
    assert(a4 == n4);
    let a5 = a4.wrapping_mul(21);
    lemma_wmul_cancel(n5, 0xcf3c_f3cf_3cf3_cf3du64, 21);
    assert(a5 == n5);
    let a6 = a5 ^ (a5 >> 28u64);
    assert(a6 == n6);
    lemma_last_step_bv(n6);
    lemma_wmul_cancel(m, 0x3fff_ffff_8000_0001u64, 0x8000_0001u64);
}

/// Invert [`mix64`] (each step is a bijection on `u64`). The `0x5a17` zero
/// guard is not inverted — it only fires for the single seed whose mix is 0.
pub fn mix64_inv(n: u64) -> (r: u64)
    ensures
        mix_raw(r) == n,
        r == unmix(n),
{
    proof {
        lemma_newton_shl31();
        lemma_newton_21();
        lemma_newton_265();
        lemma_newton_shl21();
    }
    let n7 = n;
    // n = n + (n << 31)   →  n *= (1 + 2^31)
    let n6 = n7.wrapping_mul(minv(0x8000_0001));
    // n ^= n >> 28
    let n5 = inv_xorshr(n6, 28);
    // n *= 21
    let n4 = n5.wrapping_mul(minv(21));
    // n ^= n >> 14
    let n3 = inv_xorshr(n4, 14);
    // n *= 265
    let n2 = n3.wrapping_mul(minv(265));
    // n ^= n >> 24
    let n1 = inv_xorshr(n2, 24);
    // n = (~n) + (n << 21) = n*(2^21 - 1) - 1   →   n = (n + 1) * inv(2^21 - 1)
    let r = n1.wrapping_add(1).wrapping_mul(minv(0x1f_ffff));
    proof {
        lemma_inverse_chain(n7, n6, n5, n4, n3, n2, n1, r);
        lemma_mix_injective(unmix(n), r);
    }
    r
}

/// The Wang mix is injective: distinct seeds mix to distinct words.
pub proof fn lemma_mix_injective(a: u64, b: u64)
    requires
        mix_raw(a) == mix_raw(b),
    ensures
        a == b,
{
    lemma_inverse_constants();
    lemma_first_step(a);
    lemma_first_step(b);
    let a1 = (!a).wrapping_add(a << 21u64);
    let b1 = (!b).wrapping_add(b << 21u64);
    let a2 = a1 ^ (a1 >> 24u64);
    let b2 = b1 ^ (b1 >> 24u64);
    let a3 = a2.wrapping_mul(265);
    let b3 = b2.wrapping_mul(265);
    let a4 = a3 ^ (a3 >> 14u64);
    let b4 = b3 ^ (b3 >> 14u64);
    let a5 = a4.wrapping_mul(21);
    let b5 = b4.wrapping_mul(21);
    let a6 = a5 ^ (a5 >> 28u64);
    let b6 = b5 ^ (b5 >> 28u64);
    lemma_last_step_bv(a6);
    lemma_last_step_bv(b6);
    lemma_wmul_injective(a6, b6, 0x8000_0001u64, 0x3fff_ffff_8000_0001u64);
    lemma_xor_shr_injective(a5, b5, 28);
    lemma_wmul_injective(a4, b4, 21, 0xcf3c_f3cf_3cf3_cf3du64);
    lemma_xor_shr_injective(a3, b3, 14);
    lemma_wmul_injective(a2, b2, 265, 0xd38f_f08b_1c03_dd39u64);
    lemma_xor_shr_injective(a1, b1, 24);
    assert(a.wrapping_mul(0x1fffffu64) == b.wrapping_mul(0x1fffffu64));
    lemma_wmul_injective(a, b, 0x1f_ffffu64, 0x7fff_fbff_ffdf_ffffu64);
}

/// Mixing a seed and inverting the mix gives the seed back (unless the mix is
/// the zero word, which the guard replaces).
pub proof fn lemma_unmix_after_mix(n: u64)
    requires
        mix_raw(n) != 0,
    ensures
        unmix(mix64_spec(n)) == n,
{
    let m = mix_raw(n);
    assert(mix_raw(n) == m);
    let r = unmix(m);
    assert(mix_raw(r) == m);
    lemma_mix_injective(r, n);
}

/// Inverting the mix of a non-zero word and mixing again gives the word back.
pub proof fn lemma_mix_after_unmix(m: u64)
    requires
        m != 0,
    ensures
        mix64_spec(unmix(m)) == m,
{
    lemma_mix_surjective(m);
}

/// Every word is the mix of some seed.
proof fn lemma_mix_surjective(m: u64)
    ensures
        mix_raw(unmix(m)) == m,
{
    let n6 = m.wrapping_mul(0x3fff_ffff_8000_0001u64);
    let n5 = spec_inv_xorshr(n6, 28);
    let n4 = n5.wrapping_mul(0xcf3c_f3cf_3cf3_cf3du64);
    let n3 = spec_inv_xorshr(n4, 14);
    let n2 = n3.wrapping_mul(0xd38f_f08b_1c03_dd39u64);
    let n1 = spec_inv_xorshr(n2, 24);
    let r = n1.wrapping_add(1).wrapping_mul(0x7fff_fbff_ffdf_ffffu64);
    lemma_spec_inv_xorshr(n6);
    lemma_spec_inv_xorshr(n4);
    lemma_spec_inv_xorshr(n2);
    lemma_inverse_chain(m, n6, n5, n4, n3, n2, n1, r);
    assert(mix_raw(r) == m);
}

/// Closed-form inverse of `x ^ (x >> s)`: xor of all shifts by multiples of `s`.
spec fn spec_inv_xorshr(y: u64, s: u64) -> u64 {
    y ^ (y >> s) ^ (y >> (2 * s) as u64) ^ (y >> (3 * s) as u64) ^ (y >> (4 * s) as u64)
}

proof fn lemma_spec_inv_xorshr(y: u64)
    ensures
        spec_inv_xorshr(y, 28) ^ (spec_inv_xorshr(y, 28) >> 28u64) == y,
        spec_inv_xorshr(y, 14) ^ (spec_inv_xorshr(y, 14) >> 14u64) == y,
        spec_inv_xorshr(y, 24) ^ (spec_inv_xorshr(y, 24) >> 24u64) == y,
{
    lemma_spec_inv_xorshr_bv(y);
}

proof fn lemma_spec_inv_xorshr_bv(y: u64)
    by (bit_vector)
    ensures
        ({
            let x = y ^ (y >> 28u64) ^ (y >> 56u64) ^ (y >> 84u64) ^ (y >> 112u64);
            x ^ (x >> 28u64) == y
        }),
        ({
            let x = y ^ (y >> 14u64) ^ (y >> 28u64) ^ (y >> 42u64) ^ (y >> 56u64);
            x ^ (x >> 14u64) == y
        }),
        ({
            let x = y ^ (y >> 24u64) ^ (y >> 48u64) ^ (y >> 72u64) ^ (y >> 96u64);
            x ^ (x >> 24u64) == y
        }),
{
}

} // verus!
