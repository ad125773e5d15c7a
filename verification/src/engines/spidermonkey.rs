//! SpiderMonkey `Math.random()` — Firefox and other Gecko browsers.
//!
//! State transition: xorshift128+ with shifts (23,17,26), identical to V8.
//! Output conversion uses the **low 53 bits** of the post-step sum:
//!
//! ```text
//! double = ((s0 + s1) & (2^53 - 1)) as f64 * 2^-53
//! ```
//!
//! (V8 instead uses the top 52 mantissa bits of `s0`; this low-53-of-the-sum
//! form is what distinguishes SpiderMonkey.) SpiderMonkey serves values
//! one-per-step in generation order — no reversed cache. Outputs are handled
//! here as their 53-bit numerators.
//!
//! Recovery is NOT GF(2)-linear (the integer addition is nonlinear over GF(2)),
//! so the state is found by an SMT solver from ~8 outputs; a proposed state is
//! accepted here only by full reproduction.
//!
//! VERSION SPLIT — this module models *modern* SpiderMonkey only. Gecko switched
//! `Math.random()` to xorshift128+ around Firefox 49 (2016). Earlier Firefox
//! used a drand48-style 48-bit LCG (see `spidermonkey_legacy`). Both produce
//! 53-bit doubles, so the structural fingerprint cannot tell them apart — only
//! reproduction can.
use vstd::prelude::*;
use crate::engines::{all_close, all_within};
use crate::prng::xorshift128plus::{iterate, step_spec, XorShift128Plus};

verus! {

/// 2^53: the denominator of every output here.
pub const P53: u64 = 0x20_0000_0000_0000;

/// Largest numerator difference the reproduction check accepts (1e-15 on the
/// 2^-53 grid).
pub const TOL: u64 = 9;

/// The numerator of the double made from a post-step sum.
pub open spec fn low53(sum: u64) -> u64 {
    (sum % P53) as u64
}

/// The first `n` numerators from `state`, one per step.
pub open spec fn outputs(state: XorShift128Plus, n: nat) -> Seq<u64> {
    Seq::new(n, |k: int| low53(iterate(state, (k + 1) as nat).s0.wrapping_add(iterate(state, (k + 1) as nat).s1)))
}

/// Convert a post-step sum (`s0 + s1`) to the numerator over 2^53 of the double
/// SpiderMonkey returns.
pub fn to_double(sum: u64) -> (r: u64)
    ensures
        r == low53(sum),
        r < P53,
{
    sum % P53
}

/// Recover the low 53 bits of the sum from an observed numerator.
pub fn sum_low_bits(value: u64) -> (r: u64)
    ensures
        r == value % P53,
{
    value % P53
}

/// The low 53 bits of the sum survive the conversion.
pub proof fn lemma_low_bits_round_trip(sum: u64)
    ensures
        low53(sum) % P53 == sum % P53,
{
}

/// Generate `n` numerators in observed order, starting from `state`.
pub fn generate(state: XorShift128Plus, n: usize) -> (out: Vec<u64>)
    ensures
        out@ == outputs(state, n as nat),
{
    let mut st = state;
    let mut out: Vec<u64> = Vec::new();
    let mut k: usize = 0;
    while k < n
        invariant
            k <= n,
            st == iterate(state, k as nat),
            out@ == outputs(state, k as nat),
        decreases n - k,
    {
        assert(iterate(state, (k + 1) as nat) == step_spec(iterate(state, k as nat)));
        st.next_state();
        out.push(to_double(st.sum()));
        k = k + 1;
        proof {
            assert(out@ =~= outputs(state, k as nat));
        }
    }
    out
}

/// Accept a proposed 128-bit state (from an SMT solver run on the first eight
/// numerators) only if it reproduces every observed numerator.
pub fn recover(obs: &[u64], s0: u64, s1: u64) -> (r: Option<XorShift128Plus>)
    ensures
        r is Some <==> obs.len() >= 8 && all_close(outputs(XorShift128Plus { s0, s1 }, obs.len() as nat), obs@, TOL),
        r matches Some(st) ==> st == (XorShift128Plus { s0, s1 }),
{
    if obs.len() < 8 {
        return None;
    }
    let state = XorShift128Plus::new(s0, s1);
    let regen = generate(state, obs.len());
    if all_within(regen.as_slice(), obs, TOL) {
        Some(state)
    } else {
        None
    }
}

} // verus!
