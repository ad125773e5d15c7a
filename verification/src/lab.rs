//! Reverse-engineering lab: the computations behind the experiments that
//! discover and confirm the recurrence behind a capture by reproducing the
//! observed sequence. Once an algorithm is confirmed here it gets promoted into
//! an engine module.
//!
//! Captures are handled as numerators on the grid an experiment assumes.
use vstd::prelude::*;
use crate::engines::{close, within};
use crate::engines::spidermonkey_legacy::{numerator, step_spec, MASK, TOL};
use crate::modular::{lemma_mask_is_mod, lemma_or_low, lemma_powers, lemma_shl_mul, lemma_shr_div};
use crate::prng::xorshift128plus::{iterate, step_spec as xs_step, XorShift128Plus};
use crate::engines::v8::{
    bit64, gen_index, gen_index_spec, iterate_with, lemma_bits_agree_52, lemma_iterate_with_std, lemma_mantissa_bits_with,
    lemma_seed_of_state_bits, mantissa, seed_of, seed_rows, state_bits, sym_iter_with, sym_step_shifts, to_double, P52,
};
use crate::engines::spidermonkey;
use crate::engines::spidermonkey::outputs as sm_outputs;
use crate::smt::{xorshift_script, xorshift_text, Shifts};
use crate::gf2::{consistent, dot, particular, rhs_are_bits, row_sat, sat_all, solve_128, solve_128_any};
use vstd::arithmetic::power2::pow2;
use vstd::arithmetic::div_mod::lemma_fundamental_div_mod_converse;

verus! {

// ---- drand48 / old SpiderMonkey -------------------------------------------

/// One drand48 step.
pub fn d_step(s: u64) -> (r: u64)
    ensures
        r == step_spec(s),
        r <= MASK,
{
    proof {
        lemma_mask_is_mod(s.wrapping_mul(0x5_deec_e66d).wrapping_add(0xb), MASK);
    }
    s.wrapping_mul(0x5_deec_e66d).wrapping_add(0xb) & MASK
}

/// One old-SpiderMonkey output (numerator over 2^53) from the state before
/// it, with the state after it.
pub fn d_double(state_before: u64) -> (r: (u64, u64))
    ensures
        r.0 == numerator(step_spec(state_before), step_spec(step_spec(state_before))),
        r.1 == step_spec(step_spec(state_before)),
{
    let s1 = d_step(state_before);
    let s2 = d_step(s1);
    let hi = s1 >> 22;
    let lo = s2 >> 21;
    proof {
        lemma_powers();
        lemma_shr_div(s1, 22);
        lemma_shr_div(s2, 21);
        assert(hi < 0x400_0000);
        lemma_shl_mul(hi, 27);
    }
    ((hi << 27) + lo, s2)
}

/// How many observed numerators from index `j` on the drand48 stream
/// reproduces from `state`, stopping at the first mismatch.
pub open spec fn d_run(state: u64, obs: Seq<u64>, j: int) -> nat
    decreases obs.len() - j,
{
    if j < 0 || j >= obs.len() {
        0
    } else {
        let a = step_spec(state);
        let b = step_spec(a);
        if close(numerator(a, b), obs[j], TOL) {
            1 + d_run(b, obs, j + 1)
        } else {
            0
        }
    }
}

/// A drand48 candidate: the low 22 bits `x` of the first intermediate state,
/// the state after the first value, and how many of the following values it
/// reproduces.
pub struct DrandCandidate {
    pub x: u64,
    pub state: u64,
    pub reproduced: usize,
}

/// Whether low bits `x` under high bits `hi` make a state whose successor shows
/// the first value's low half `lo`.
pub open spec fn d_matches(hi: u64, lo: u64, x: u64) -> bool {
    step_spec((hi * 0x40_0000 + x) as u64) / 0x20_0000 == lo
}

/// Every candidate for the first value's hidden low 22 bits, in increasing
/// order, each with how far it reproduces the rest of the capture.
pub fn crack_drand48(obs: &[u64]) -> (r: Vec<DrandCandidate>)
    requires
        obs.len() >= 1,
        obs@[0] <= 0x20_0000_0000_0000,
    ensures
        forall|i: int| 0 <= i < r.len() ==> {
            let c = #[trigger] r@[i];
            &&& c.x < 0x40_0000
            &&& d_matches(obs@[0] / 0x800_0000, obs@[0] % 0x800_0000, c.x)
            &&& c.state == step_spec((obs@[0] / 0x800_0000 * 0x40_0000 + c.x) as u64)
            &&& c.reproduced == d_run(c.state, obs@, 1)
        },
        forall|i: int, k: int| 0 <= i < k < r.len() ==> r@[i].x < r@[k].x,
        forall|x: u64| x < 0x40_0000 && #[trigger] d_matches(obs@[0] / 0x800_0000, obs@[0] % 0x800_0000, x)
            ==> exists|i: int| 0 <= i < r.len() && r@[i].x == x,
{
    let m0 = obs[0];
    let hi0 = m0 >> 27;
    let lo0 = m0 % 0x800_0000;
    proof {
        lemma_powers();
        lemma_shr_div(m0, 27);
        assert(hi0 <= 0x400_0000);
    }
    let mut out: Vec<DrandCandidate> = Vec::new();
    let mut x: u64 = 0;
    while x < 0x40_0000
        invariant
            x <= 0x40_0000,
            obs.len() >= 1,
            m0 == obs@[0],
            hi0 == m0 / 0x800_0000,
            hi0 <= 0x400_0000,
            lo0 == m0 % 0x800_0000,
            forall|i: int| 0 <= i < out.len() ==> {
                let c = #[trigger] out@[i];
                &&& c.x < x
                &&& d_matches(hi0, lo0, c.x)
                &&& c.state == step_spec((hi0 * 0x40_0000 + c.x) as u64)
                &&& c.reproduced == d_run(c.state, obs@, 1)
            },
            forall|i: int, k: int| 0 <= i < k < out.len() ==> out@[i].x < out@[k].x,
            forall|y: u64| y < x && #[trigger] d_matches(hi0, lo0, y) ==> exists|i: int|
                0 <= i < out.len() && out@[i].x == y,
        decreases 0x40_0000 - x,
    {
        proof {
            lemma_powers();
            lemma_shl_mul(1, 22);
            lemma_or_low(hi0, x, 22);
            lemma_shl_mul(hi0, 22);
        }
        let s1 = (hi0 << 22) | x;
        let s2 = d_step(s1);
        proof {
            lemma_shr_div(s2, 21);
        }
        if (s2 >> 21) == lo0 {
            // s2 is the state after producing the first value; verify forward.
            let mut state = s2;
            let mut ok: usize = 0;
            let mut j: usize = 1;
            while j < obs.len()
                invariant
                    1 <= j <= obs.len(),
                    ok == j - 1,
                    d_run(s2, obs@, 1) == ok + d_run(state, obs@, j as int),
                ensures
                    ok == d_run(s2, obs@, 1),
                decreases obs.len() - j,
            {
                let (d, ns) = d_double(state);
                if (d >= obs[j] && d - obs[j] <= TOL) || (d < obs[j] && obs[j] - d <= TOL) {
                    ok = ok + 1;
                    state = ns;
                    j = j + 1;
                } else {
                    break;
                }
            }
            let ghost out_before = out@;
            out.push(DrandCandidate { x, state: s2, reproduced: ok });
            proof {
                assert forall|y: u64| y < x + 1 && #[trigger] d_matches(hi0, lo0, y) implies exists|i: int|
                    0 <= i < out.len() && out@[i].x == y by {
                    if y == x {
                        assert(out@[out.len() - 1].x == y);
                    } else {
                        let i = choose|i: int| 0 <= i < out_before.len() && out_before[i].x == y;
                        assert(out@[i].x == y);
                    }
                }
            }
        }
        x = x + 1;
    }
    out
}

// ---- MWC1616 / old V8 ------------------------------------------------------

/// One MWC16 lane step: `state = mult*(state & 0xffff) + (state >> 16)`.
pub fn mwc_lane_step(s: u64, mult: u64) -> (r: u64)
    requires
        mult < 0x1_0000,
    ensures
        r == mult * (s % 0x1_0000) + s / 0x1_0000,
{
    let lo = s % 0x1_0000;
    assert(mult * lo < 0x1_0000 * 0x1_0000) by (nonlinear_arith)
        requires
            mult < 0x1_0000,
            lo < 0x1_0000,
    ;
    mult * lo + s / 0x1_0000
}

/// Whether multiplier `c` explains the carry between lane lows `i - 1`, `i` and
/// `i + 1`: the high half recovered for step `i` is the carry of step `i - 1`.
pub open spec fn carry_consistent(lo: Seq<u64>, c: u64, i: int) -> bool {
    let hi_im1 = (lo[i] + 0x1_0000 - (c * lo[i - 1]) % 0x1_0000) % 0x1_0000;
    let hi_i = (lo[i + 1] + 0x1_0000 - (c * lo[i]) % 0x1_0000) % 0x1_0000;
    ((c * lo[i - 1] + hi_im1) / 0x1_0000) % 0x1_0000 == hi_i
}

/// How many of the positions `1..m` multiplier `c` explains.
pub open spec fn carry_score(lo: Seq<u64>, c: u64, m: int) -> nat
    decreases m,
{
    if m <= 1 {
        0
    } else {
        carry_score(lo, c, m - 1) + if carry_consistent(lo, c, m - 1) {
            1nat
        } else {
            0nat
        }
    }
}

fn score_of(lo: &[u64], c: u64, n: usize) -> (s: usize)
    requires
        2 <= n <= lo.len(),
        c < 0x1_0000,
        forall|i: int| 0 <= i < lo.len() ==> lo@[i] < 0x1_0000_0000,
    ensures
        s == carry_score(lo@, c, n - 1),
        s <= n - 2,
{
    let mut score: usize = 0;
    let mut i: usize = 1;
    while i < n - 1
        invariant
            1 <= i <= n - 1,
            n <= lo.len(),
            c < 0x1_0000,
            forall|k: int| 0 <= k < lo.len() ==> lo@[k] < 0x1_0000_0000,
            score == carry_score(lo@, c, i as int),
            score <= i - 1,
        decreases n - 1 - i,
    {
        let l0 = lo[i - 1];
        let l1 = lo[i];
        assert(c * l0 < 0x1_0000 * 0x1_0000_0000 && c * l1 < 0x1_0000 * 0x1_0000_0000) by (nonlinear_arith)
            requires
                c < 0x1_0000,
                l0 < 0x1_0000_0000,
                l1 < 0x1_0000_0000,
        ;
        let hi_im1 = (lo[i] + 0x1_0000 - (c * lo[i - 1]) % 0x1_0000) % 0x1_0000;
        let hi_i = (lo[i + 1] + 0x1_0000 - (c * lo[i]) % 0x1_0000) % 0x1_0000;
        if ((c * lo[i - 1] + hi_im1) / 0x1_0000) % 0x1_0000 == hi_i {
            score = score + 1;
        }
        i = i + 1;
    }
    score
}

/// The last position a window of `window` values over `len` scores: the
/// positions `1..` stop one before the end of the window.
pub open spec fn last_scored(len: nat, window: nat) -> int {
    (if len < window {
        len
    } else {
        window
    }) - 1
}

/// Given the observed low-16-bit sequence of a lane, find the multiplier C whose
/// carry relation holds for the most samples (NON-breaking count, so a single
/// glitch near the start doesn't zero the score). Returns the best (C, score),
/// the smallest such C on ties, and (0, 0) when no multiplier scores.
pub fn best_mwc_mult(lo: &[u64], window: usize) -> (r: (u64, usize))
    requires
        1 <= lo.len(),
        1 <= window,
        forall|i: int| 0 <= i < lo.len() ==> lo@[i] < 0x1_0000_0000,
    ensures
        r.0 < 0x1_0000,
        forall|c: u64| 1 <= c < 0x1_0000 ==> #[trigger] carry_score(lo@, c, last_scored(lo.len() as nat, window as nat)) <= r.1,
        r.1 > 0 ==> 1 <= r.0 && r.1 == carry_score(lo@, r.0, last_scored(lo.len() as nat, window as nat)) && forall|c: u64|
            1 <= c < r.0 ==> #[trigger] carry_score(lo@, c, last_scored(lo.len() as nat, window as nat)) < r.1,
        r.1 == 0 ==> r.0 == 0,
        r.1 + 1 <= (if lo.len() < window { lo.len() as int } else { window as int }),
        (if lo.len() < window { lo.len() as int } else { window as int }) >= 2 ==> r.1 + 2 <= (if lo.len() < window {
            lo.len() as int
        } else {
            window as int
        }),
{
    let n = if lo.len() < window {
        lo.len()
    } else {
        window
    };
    if n < 2 {
        return (0, 0);
    }
    let mut best_c: u64 = 0;
    let mut best_score: usize = 0;
    let mut c: u64 = 1;
    while c < 0x1_0000
        invariant
            1 <= c <= 0x1_0000,
            2 <= n <= lo.len(),
            forall|i: int| 0 <= i < lo.len() ==> lo@[i] < 0x1_0000_0000,
            best_c < c,
            best_score <= n - 2,
            forall|d: u64| 1 <= d < c ==> #[trigger] carry_score(lo@, d, n - 1) <= best_score,
            best_score > 0 ==> 1 <= best_c && best_score == carry_score(lo@, best_c, n - 1) && forall|d: u64|
                1 <= d < best_c ==> #[trigger] carry_score(lo@, d, n - 1) < best_score,
            best_score == 0 ==> best_c == 0,
        decreases 0x1_0000 - c,
    {
        let score = score_of(lo, c, n);
        if score > best_score {
            best_score = score;
            best_c = c;
        }
        c = c + 1;
    }
    (best_c, best_score)
}

// ---- modern SpiderMonkey through carry guesses ------------------------------

/// The conversion the carry experiment assumes: the high 53 bits of the sum.
pub open spec fn sum_high53(s: XorShift128Plus) -> u64 {
    s.s0.wrapping_add(s.s1) / 0x800
}

/// The first `k` outputs of `seed` under [`sum_high53`] are `o[..k]`.
pub open spec fn reproduces_high53(seed: XorShift128Plus, o: Seq<u64>, k: nat) -> bool {
    forall|i: int| 0 <= i < k ==> sum_high53(#[trigger] iterate(seed, (i + 1) as nat)) == o[i]
}

/// Masking to the low `p` bits keeps a value no larger.
proof fn lemma_carry_bits(a: u128, b: u128, p: u128)
    by (bit_vector)
    requires
        p < 64,
    ensures
        (1u128 << p) >= 1,
        a & (((1u128 << p) - 1) as u128) <= a,
        b & (((1u128 << p) - 1) as u128) <= b,
{
}

/// Build the symbolic states after `1..=k` steps, with shifts `(a, b, c)`,
/// from a symbolic seed.
fn symbolic_states(k: usize, a: usize, b: usize, c: usize) -> (r: (Vec<Vec<u128>>, Vec<Vec<u128>>))
    requires
        a <= 64,
        b <= 64,
        c <= 64,
    ensures
        r.0.len() == k,
        r.1.len() == k,
        forall|i: int| 0 <= i < k ==> (#[trigger] r.0@[i]).len() == 64,
        forall|i: int| 0 <= i < k ==> (#[trigger] r.1@[i]).len() == 64,
        forall|i: int|
            0 <= i < k ==> (#[trigger] r.0@[i])@ == sym_iter_with((i + 1) as nat, a as int, b as int, c as int).0,
        forall|i: int|
            0 <= i < k ==> (#[trigger] r.1@[i])@ == sym_iter_with((i + 1) as nat, a as int, b as int, c as int).1,
{
    let mut s0: Vec<u128> = Vec::new();
    let mut s1: Vec<u128> = Vec::new();
    let mut i: usize = 0;
    while i < 64
        invariant
            i <= 64,
            s0.len() == i,
            s1.len() == i,
            forall|j: int| 0 <= j < i ==> s0@[j] == seed_rows(0)[j],
            forall|j: int| 0 <= j < i ==> s1@[j] == seed_rows(64)[j],
        decreases 64 - i,
    {
        let i128: u128 = i as u128;
        s0.push(1u128 << i128);
        s1.push(1u128 << (64 + i128));
        i = i + 1;
    }
    assert(s0@ =~= seed_rows(0));
    assert(s1@ =~= seed_rows(64));
    let mut s0g: Vec<Vec<u128>> = Vec::new();
    let mut s1g: Vec<Vec<u128>> = Vec::new();
    let mut g: usize = 0;
    while g < k
        invariant
            g <= k,
            a <= 64,
            b <= 64,
            c <= 64,
            s0.len() == 64,
            s1.len() == 64,
            s0g.len() == g,
            s1g.len() == g,
            forall|i: int| 0 <= i < g ==> (#[trigger] s0g@[i]).len() == 64,
            forall|i: int| 0 <= i < g ==> (#[trigger] s1g@[i]).len() == 64,
            s0@ == sym_iter_with(g as nat, a as int, b as int, c as int).0,
            s1@ == sym_iter_with(g as nat, a as int, b as int, c as int).1,
            forall|i: int|
                0 <= i < g ==> (#[trigger] s0g@[i])@ == sym_iter_with((i + 1) as nat, a as int, b as int, c as int).0,
            forall|i: int|
                0 <= i < g ==> (#[trigger] s1g@[i])@ == sym_iter_with((i + 1) as nat, a as int, b as int, c as int).1,
        decreases k - g,
    {
        let (n0, n1) = sym_step_shifts(&s0, &s1, a, b, c);
        s0 = n0;
        s1 = n1;
        let c0 = s0.clone();
        let c1 = s1.clone();
        assert(c0@ =~= s0@);
        assert(c1@ =~= s1@);
        s0g.push(c0);
        s1g.push(c1);
        g = g + 1;
    }
    (s0g, s1g)
}

/// The carry into bit `p` of `a + b` (0 below bit 11, which no output keeps).
pub open spec fn carry_bit(a: u64, b: u64, p: int) -> u8 {
    if p < 11 {
        0
    } else {
        let m = ((1u128 << (p as u128)) - 1) as u128;
        ((((((a as u128) & m) + ((b as u128) & m)) as u128) >> (p as u128)) % 2) as u8
    }
}

/// The carries of the first 12 post-step sums of `seed`, one row of 64 per
/// output.
pub open spec fn carries_of(seed: XorShift128Plus) -> Seq<Seq<u8>> {
    Seq::new(
        12,
        |k: int| Seq::new(64, |p: int| carry_bit(iterate(seed, (k + 1) as nat).s0, iterate(seed, (k + 1) as nat).s1, p)),
    )
}

/// The first guess: no carries.
pub open spec fn no_carries() -> Seq<Seq<u8>> {
    Seq::new(12, |k: int| Seq::new(64, |p: int| 0u8))
}

/// The equation for bit `b` of output `k` under the carry guess: the xor of
/// the symbolic bits `11 + b` of the two state words, and the observed bit
/// xored with the guessed carry.
pub open spec fn sm_row(o: Seq<u64>, carry: Seq<Seq<u8>>, k: int, b: int) -> (u128, u8) {
    (
        sym_iter_with((k + 1) as nat, 23, 17, 26).0[11 + b] ^ sym_iter_with((k + 1) as nat, 23, 17, 26).1[11 + b],
        (((o[k] >> (b as u64)) % 2) as u8) ^ carry[k][11 + b],
    )
}

/// The equations of the first `k` outputs under a carry guess.
pub open spec fn sm_rows(o: Seq<u64>, carry: Seq<Seq<u8>>, k: int) -> Seq<(u128, u8)>
    decreases k,
{
    if k <= 0 {
        Seq::empty()
    } else {
        sm_rows(o, carry, k - 1) + Seq::new(53, |b: int| sm_row(o, carry, k - 1, b))
    }
}

/// The seed a round solves for under a carry guess: the particular solution
/// of the guess's system.
pub open spec fn round_seed(o: Seq<u64>, carry: Seq<Seq<u8>>) -> XorShift128Plus {
    seed_of(particular(sm_rows(o, carry, 12)))
}

/// The carry guess of round `r`: none at first, then the carries of the
/// previous round's seed.
pub open spec fn carry_at(o: Seq<u64>, r: nat) -> Seq<Seq<u8>>
    decreases r,
{
    if r == 0 {
        no_carries()
    } else {
        carries_of(round_seed(o, carry_at(o, (r - 1) as nat)))
    }
}

/// The seed of round `r`.
pub open spec fn sm_round(o: Seq<u64>, r: nat) -> XorShift128Plus {
    round_seed(o, carry_at(o, r))
}

/// The views of a table of rows.
pub open spec fn table(t: Seq<Vec<u8>>) -> Seq<Seq<u8>> {
    Seq::new(t.len(), |i: int| t[i]@)
}

/// Modern SpiderMonkey under the `(s0+s1) >> 11` conversion: the state is
/// GF(2)-linear except for the addition's carries, so guess the carries, solve
/// for the seed, recompute the carries from it, and repeat (at most 200 rounds)
/// until the seed reproduces the first 12 outputs. Round `i` solves for
/// [`sm_round`]; the result is the first round that reproduces the outputs,
/// with its seed, or `None` when none of the 200 does.
pub fn crack_sm(o: &[u64]) -> (r: Option<(XorShift128Plus, usize)>)
    requires
        o.len() >= 12,
    ensures
        r matches Some(res) ==> res.1 < 200 && res.0 == sm_round(o@, res.1 as nat) && reproduces_high53(res.0, o@, 12)
            && forall|i: nat| i < res.1 ==> !reproduces_high53(#[trigger] sm_round(o@, i), o@, 12),
        r is None ==> forall|i: nat| i < 200 ==> !reproduces_high53(#[trigger] sm_round(o@, i), o@, 12),
{
    let k: usize = 12;
    let mut carry: Vec<Vec<u8>> = Vec::new();
    let mut ki: usize = 0;
    while ki < k
        invariant
            ki <= k,
            k == 12,
            carry.len() == ki,
            forall|i: int| 0 <= i < ki ==> (#[trigger] carry@[i]).len() == 64,
            forall|i: int| 0 <= i < ki ==> (#[trigger] carry@[i])@ == no_carries()[i],
        decreases k - ki,
    {
        let mut row: Vec<u8> = Vec::new();
        let mut p: usize = 0;
        while p < 64
            invariant
                p <= 64,
                row.len() == p,
                forall|j: int| 0 <= j < p ==> row@[j] == 0u8,
            decreases 64 - p,
        {
            row.push(0);
            p = p + 1;
        }
        assert(row@ =~= no_carries()[ki as int]);
        carry.push(row);
        ki = ki + 1;
    }
    assert(table(carry@) =~= carry_at(o@, 0));
    let (s0g, s1g) = symbolic_states(k, 23, 17, 26);
    let mut round: usize = 0;
    while round < 200
        invariant
            round <= 200,
            k == 12,
            o.len() >= 12,
            s0g.len() == 12,
            s1g.len() == 12,
            forall|i: int| 0 <= i < 12 ==> (#[trigger] s0g@[i]).len() == 64,
            forall|i: int| 0 <= i < 12 ==> (#[trigger] s1g@[i]).len() == 64,
            forall|i: int| 0 <= i < 12 ==> (#[trigger] s0g@[i])@ == sym_iter_with((i + 1) as nat, 23, 17, 26).0,
            forall|i: int| 0 <= i < 12 ==> (#[trigger] s1g@[i])@ == sym_iter_with((i + 1) as nat, 23, 17, 26).1,
            carry.len() == 12,
            forall|i: int| 0 <= i < 12 ==> (#[trigger] carry@[i]).len() == 64,
            table(carry@) == carry_at(o@, round as nat),
            forall|i: nat| i < round ==> !reproduces_high53(#[trigger] sm_round(o@, i), o@, 12),
        decreases 200 - round,
    {
        let mut rows: Vec<(u128, u8)> = Vec::new();
        let mut ki: usize = 0;
        while ki < k
            invariant
                ki <= 12,
                k == 12,
                o.len() >= 12,
                s0g.len() == 12,
                s1g.len() == 12,
                forall|i: int| 0 <= i < 12 ==> (#[trigger] s0g@[i]).len() == 64,
                forall|i: int| 0 <= i < 12 ==> (#[trigger] s1g@[i]).len() == 64,
                forall|i: int| 0 <= i < 12 ==> (#[trigger] s0g@[i])@ == sym_iter_with((i + 1) as nat, 23, 17, 26).0,
                forall|i: int| 0 <= i < 12 ==> (#[trigger] s1g@[i])@ == sym_iter_with((i + 1) as nat, 23, 17, 26).1,
                carry.len() == 12,
                forall|i: int| 0 <= i < 12 ==> (#[trigger] carry@[i]).len() == 64,
                rows@ == sm_rows(o@, table(carry@), ki as int),
            decreases 12 - ki,
        {
            let ghost before = rows@;
            let mut b: usize = 0;
            while b < 53
                invariant
                    b <= 53,
                    ki < 12,
                    o.len() >= 12,
                    s0g.len() == 12,
                    s1g.len() == 12,
                    forall|i: int| 0 <= i < 12 ==> (#[trigger] s0g@[i]).len() == 64,
                    forall|i: int| 0 <= i < 12 ==> (#[trigger] s1g@[i]).len() == 64,
                    forall|i: int| 0 <= i < 12 ==> (#[trigger] s0g@[i])@ == sym_iter_with((i + 1) as nat, 23, 17, 26).0,
                    forall|i: int| 0 <= i < 12 ==> (#[trigger] s1g@[i])@ == sym_iter_with((i + 1) as nat, 23, 17, 26).1,
                    carry.len() == 12,
                    forall|i: int| 0 <= i < 12 ==> (#[trigger] carry@[i]).len() == 64,
                    rows@ == before + Seq::new(b as nat, |j: int| sm_row(o@, table(carry@), ki as int, j)),
                decreases 53 - b,
            {
                let p = 11 + b;
                let coeff = s0g[ki][p] ^ s1g[ki][p];
                let rhs = (((o[ki] >> b) % 2) as u8) ^ carry[ki][p];
                rows.push((coeff, rhs));
                proof {
                    assert(table(carry@)[ki as int] == carry@[ki as int]@);
                }
                b = b + 1;
                proof {
                    assert(rows@ =~= before + Seq::new(b as nat, |j: int| sm_row(o@, table(carry@), ki as int, j)));
                }
            }
            ki = ki + 1;
        }
        let sol = solve_128_any(rows);
        let seed = XorShift128Plus::new(#[verifier::truncate] (sol as u64), #[verifier::truncate] ((sol >> 64u32) as u64));
        proof {
            assert(seed == seed_of(sol));
            assert(seed == sm_round(o@, round as nat));
        }
        let mut st = seed;
        let mut all = true;
        let mut new_carry: Vec<Vec<u8>> = Vec::new();
        let mut ki: usize = 0;
        while ki < k
            invariant
                ki <= 12,
                k == 12,
                o.len() >= 12,
                new_carry.len() == ki,
                forall|i: int| 0 <= i < ki ==> (#[trigger] new_carry@[i]).len() == 64,
                forall|i: int| 0 <= i < ki ==> (#[trigger] new_carry@[i])@ == carries_of(seed)[i],
                st == iterate(seed, ki as nat),
                all ==> forall|i: int| 0 <= i < ki ==> sum_high53(#[trigger] iterate(seed, (i + 1) as nat)) == o@[i],
                !all ==> !reproduces_high53(seed, o@, 12),
            decreases 12 - ki,
        {
            st.next_state();
            assert(st == iterate(seed, (ki + 1) as nat));
            let a = st.s0 as u128;
            let b = st.s1 as u128;
            let mut row: Vec<u8> = Vec::new();
            let mut p: usize = 0;
            while p < 64
                invariant
                    p <= 64,
                    row.len() == p,
                    a < 0x1_0000_0000_0000_0000,
                    b < 0x1_0000_0000_0000_0000,
                    a == st.s0 as u128,
                    b == st.s1 as u128,
                    forall|j: int| 0 <= j < p ==> row@[j] == carry_bit(st.s0, st.s1, j),
                decreases 64 - p,
            {
                if p < 11 {
                    row.push(0);
                } else {
                    let pp = p as u128;
                    proof {
                        lemma_carry_bits(a, b, pp);
                    }
                    let m: u128 = (1u128 << pp) - 1;
                    row.push(((((a & m) + (b & m)) >> pp) % 2) as u8);
                }
                p = p + 1;
            }
            assert(row@ =~= carries_of(seed)[ki as int]);
            new_carry.push(row);
            proof {
                lemma_shr_div(st.s0.wrapping_add(st.s1), 11);
                lemma_powers();
            }
            if (st.s0.wrapping_add(st.s1) >> 11) != o[ki] {
                all = false;
                assert(sum_high53(iterate(seed, (ki + 1) as nat)) != o@[ki as int]);
            }
            ki = ki + 1;
        }
        if all {
            return Some((seed, round));
        }
        proof {
            assert(table(new_carry@) =~= carries_of(seed));
        }
        carry = new_carry;
        round = round + 1;
    }
    None
}

/// Lane `shift`/`mask` of each numerator: `(x >> shift) & mask`.
pub open spec fn lane(r: Seq<u64>, shift: u64, mask: u64) -> Seq<u64> {
    Seq::new(r.len(), |i: int| (r[i] >> shift) & mask)
}

/// The state of a lane whose low half is `lo0` and whose successor's low half
/// is `lo1`, under multiplier `c`.
pub open spec fn lane_state(lo0: u64, lo1: u64, c: u64) -> u64 {
    ((((lo1 + 0x1_0000 - (c * lo0) % 0x1_0000) % 0x1_0000) as u64) << 16u64) | lo0
}

/// How many numerators from index `j` on two lanes reproduce, stopping at the
/// first mismatch.
pub open spec fn mwc_run(st0: u64, st1: u64, r: Seq<u64>, j: int, c0: u64, c1: u64, shift: u64, mask: u64) -> nat
    decreases r.len() - j,
{
    if j < 0 || j >= r.len() {
        0
    } else if ((st0 & mask) << shift) | (st1 & mask) != r[j] {
        0
    } else {
        1 + mwc_run(
            (c0 * (st0 % 0x1_0000) + st0 / 0x1_0000) as u64,
            (c1 * (st1 % 0x1_0000) + st1 / 0x1_0000) as u64,
            r,
            j + 1,
            c0,
            c1,
            shift,
            mask,
        )
    }
}

/// How far the lanes recovered at `start` reproduce the capture.
pub open spec fn run_from(r: Seq<u64>, start: int, c0: u64, c1: u64, shift: u64, mask: u64) -> nat {
    let a = lane(r, shift, mask);
    let b = lane(r, 0, mask);
    mwc_run(
        lane_state(a[start], a[start + 1], c0),
        lane_state(b[start], b[start + 1], c1),
        r,
        start,
        c0,
        c1,
        shift,
        mask,
    )
}

/// The outcome of an MWC1616 crack: each lane's best multiplier and its carry
/// score, and — when both scores reach 40 — the start offset reproducing the
/// longest run and that run's length.
pub struct MwcCrack {
    pub mult0: u64,
    pub score0: usize,
    pub mult1: u64,
    pub score1: usize,
    pub start: usize,
    pub run: usize,
}

/// A lane state stays below 2^49 under steps with a 16-bit multiplier.
proof fn lemma_lane_bound(s: u64, c: u64)
    requires
        s < 0x2_0000_0000_0000,
        c < 0x1_0000,
    ensures
        c * (s % 0x1_0000) + s / 0x1_0000 < 0x2_0000_0000_0000,
{
    assert(c * (s % 0x1_0000) <= 0xffff * 0xffff) by (nonlinear_arith)
        requires
            c < 0x1_0000,
            s % 0x1_0000 < 0x1_0000,
    ;
}

fn lanes_of(r: &[u64], shift: u64, mask: u64) -> (v: Vec<u64>)
    requires
        shift < 64,
    ensures
        v@ == lane(r@, shift, mask),
{
    let mut v: Vec<u64> = Vec::new();
    let mut i: usize = 0;
    while i < r.len()
        invariant
            i <= r.len(),
            shift < 64,
            v@ == lane(r@, shift, mask).subrange(0, i as int),
        decreases r.len() - i,
    {
        v.push((r[i] >> shift) & mask);
        i = i + 1;
        proof {
            assert(v@ =~= lane(r@, shift, mask).subrange(0, i as int));
        }
    }
    proof {
        assert(lane(r@, shift, mask).subrange(0, r.len() as int) =~= lane(r@, shift, mask));
    }
    v
}

/// Masking keeps a value at most the mask; a 16-bit half over a 32-bit low
/// word stays below 2^32.
proof fn lemma_lane_bits(x: u64, m: u64, h: u64, lo: u64)
    by (bit_vector)
    requires
        h < 0x1_0000,
        lo < 0x1_0000_0000,
    ensures
        x & m <= m,
        (h << 16u64) | lo < 0x1_0000_0000,
{
}

/// Full MWC1616 crack: split each numerator into two lanes by the given bit
/// layout (`r = (lane0 << lane0_shift) | lane1`, each lane `lane_bits` wide),
/// find each lane's multiplier, recover both states from each of the first
/// eight offsets, and keep the offset reproducing the longest run.
pub fn crack_mwc(r: &[u64], lane0_shift: u32, lane_bits: u32) -> (c: MwcCrack)
    requires
        r.len() >= 1,
        lane0_shift < 64,
        1 <= lane_bits <= 32,
    ensures
        ({
            let mask = ((1u64 << lane_bits) - 1) as u64;
            let a = lane(r@, lane0_shift as u64, mask);
            let b = lane(r@, 0, mask);
            let n = last_scored(r.len() as nat, 80);
            &&& c.score0 > 0 ==> c.score0 == carry_score(a, c.mult0, n)
            &&& c.score0 == 0 ==> c.mult0 == 0
            &&& c.score1 > 0 ==> c.score1 == carry_score(b, c.mult1, n)
            &&& c.score1 == 0 ==> c.mult1 == 0
            &&& forall|m: u64| 1 <= m < 0x1_0000 ==> #[trigger] carry_score(a, m, n) <= c.score0
            &&& forall|m: u64| 1 <= m < 0x1_0000 ==> #[trigger] carry_score(b, m, n) <= c.score1
            &&& (c.score0 < 40 || c.score1 < 40) ==> c.start == 0 && c.run == 0
            &&& (c.score0 >= 40 && c.score1 >= 40) ==> {
                &&& c.start < 8
                &&& c.run == run_from(r@, c.start as int, c.mult0, c.mult1, lane0_shift as u64, mask)
                &&& forall|s: int|
                    0 <= s < 8 ==> #[trigger] run_from(r@, s, c.mult0, c.mult1, lane0_shift as u64, mask) <= c.run
                &&& forall|s: int|
                    0 <= s < c.start ==> #[trigger] run_from(r@, s, c.mult0, c.mult1, lane0_shift as u64, mask) < c.run
            }
        }),
{
    proof {
        vstd::bits::lemma_u64_pow2_no_overflow(lane_bits as nat);
        lemma_shl_mul(1, lane_bits as u64);
        vstd::arithmetic::power2::lemma2_to64();
        if lane_bits < 32 {
            vstd::arithmetic::power2::lemma_pow2_strictly_increases(lane_bits as nat, 32);
        }
    }
    let lane_mask: u64 = (1u64 << lane_bits) - 1;
    let sh = lane0_shift as u64;
    let a = lanes_of(r, sh, lane_mask);
    let b = lanes_of(r, 0, lane_mask);
    proof {
        assert forall|i: int| 0 <= i < a.len() implies a@[i] < 0x1_0000_0000 by {
            lemma_lane_bits(r@[i] >> sh, lane_mask, 0, 0);
        }
        assert forall|i: int| 0 <= i < b.len() implies b@[i] < 0x1_0000_0000 by {
            lemma_lane_bits(r@[i] >> 0u64, lane_mask, 0, 0);
        }
    }
    let sa = a.as_slice();
    let sb = b.as_slice();
    let (c0, s0) = best_mwc_mult(sa, 80);
    let (c1, s1) = best_mwc_mult(sb, 80);
    if s0 < 40 || s1 < 40 {
        return MwcCrack { mult0: c0, score0: s0, mult1: c1, score1: s1, start: 0, run: 0 };
    }
    // Reproduce from each candidate start offset; keep the longest run.
    let ghost mask = lane_mask;
    let mut best_start: usize = 0;
    let mut best_run: usize = 0;
    let mut start: usize = 0;
    while start < 8
        invariant
            start <= 8,
            r.len() >= 42,
            sh < 64,
            a@ == lane(r@, sh, lane_mask),
            b@ == lane(r@, 0, lane_mask),
            forall|i: int| 0 <= i < a.len() ==> a@[i] < 0x1_0000_0000,
            forall|i: int| 0 <= i < b.len() ==> b@[i] < 0x1_0000_0000,
            c0 < 0x1_0000,
            c1 < 0x1_0000,
            best_start < 8,
            best_run == 0 || best_run == run_from(r@, best_start as int, c0, c1, sh, lane_mask),
            forall|s: int| 0 <= s < start ==> #[trigger] run_from(r@, s, c0, c1, sh, lane_mask) <= best_run,
            forall|s: int| 0 <= s < best_start ==> #[trigger] run_from(r@, s, c0, c1, sh, lane_mask) < best_run,
            best_start <= start,
        decreases 8 - start,
    {
        let a0 = a[start];
        let a1 = a[start + 1];
        let b0 = b[start];
        let b1 = b[start + 1];
        assert(c0 * a0 < 0x1_0000 * 0x1_0000_0000 && c1 * b0 < 0x1_0000 * 0x1_0000_0000) by (nonlinear_arith)
            requires
                c0 < 0x1_0000,
                c1 < 0x1_0000,
                a0 < 0x1_0000_0000,
                b0 < 0x1_0000_0000,
        ;
        let hi0a = (a1 + 0x1_0000 - (c0 * a0) % 0x1_0000) % 0x1_0000;
        let hi0b = (b1 + 0x1_0000 - (c1 * b0) % 0x1_0000) % 0x1_0000;
        let mut st0 = (hi0a << 16) | a0;
        let mut st1 = (hi0b << 16) | b0;
        proof {
            lemma_lane_bits(0, 0, hi0a, a0);
            lemma_lane_bits(0, 0, hi0b, b0);
        }
        let ghost total = run_from(r@, start as int, c0, c1, sh, lane_mask);
        let mut run: usize = 0;
        let mut j: usize = start;
        while j < r.len()
            invariant
                start <= j <= r.len(),
                run == j - start,
                sh < 64,
                c0 < 0x1_0000,
                c1 < 0x1_0000,
                st0 < 0x2_0000_0000_0000,
                st1 < 0x2_0000_0000_0000,
                run + mwc_run(st0, st1, r@, j as int, c0, c1, sh, lane_mask) == total,
            ensures
                run == total,
            decreases r.len() - j,
        {
            let pred = ((st0 & lane_mask) << sh) | (st1 & lane_mask);
            if pred != r[j] {
                break;
            }
            run = run + 1;
            proof {
                lemma_lane_bound(st0, c0);
                lemma_lane_bound(st1, c1);
            }
            st0 = mwc_lane_step(st0, c0);
            st1 = mwc_lane_step(st1, c1);
            j = j + 1;
        }
        if run > best_run {
            best_run = run;
            best_start = start;
        }
        start = start + 1;
    }
    MwcCrack { mult0: c0, score0: s0, mult1: c1, score1: s1, start: best_start, run: best_run }
}


// ---- the IE LCG experiment ------------------------------------------------------

/// One step of a `b`-bit LCG: `(a·s + c) mod 2^b`.
pub open spec fn blcg(a: u64, c: u64, s: u64, b: nat) -> u64 {
    ((a * s + c) % (pow2(b) as int)) as u64
}

/// How many 54-bit numerators from index `j` on the LCG reproduces within 2
/// (each made of the top 27 bits of two consecutive states), stopping at the
/// first mismatch.
pub open spec fn lcg_run(a: u64, c: u64, s: u64, b: nat, n: Seq<u64>, j: int) -> nat
    decreases n.len() - j,
{
    if j < 0 || j >= n.len() {
        0
    } else {
        let hi = s as int / pow2((b - 27) as nat) as int;
        let s1 = blcg(a, c, s, b);
        let lo = s1 as int / pow2((b - 27) as nat) as int;
        let s2 = blcg(a, c, s1, b);
        if close((hi * 0x800_0000 + lo) as u64, n[j], 2) {
            1 + lcg_run(a, c, s2, b, n, j + 1)
        } else {
            0
        }
    }
}

/// Reducing modulo 2^64 first keeps a residue modulo 2^b.
proof fn lemma_mod_nested(x: int, b: nat)
    requires
        x >= 0,
        b <= 64,
    ensures
        (x % 0x1_0000_0000_0000_0000) % (pow2(b) as int) == x % (pow2(b) as int),
{
    vstd::arithmetic::power2::lemma_pow2_adds(b, (64 - b) as nat);
    vstd::arithmetic::power2::lemma2_to64_rest();
    vstd::arithmetic::power2::lemma_pow2_pos(b);
    vstd::arithmetic::power2::lemma_pow2_pos((64 - b) as nat);
    vstd::arithmetic::div_mod::lemma_mod_mod(x, pow2(b) as int, pow2((64 - b) as nat) as int);
}

/// One LCG step computed with wrapping 64-bit operations and a mask.
fn lcg_step(a: u64, c: u64, s: u64, b: u32) -> (r: u64)
    requires
        27 <= b <= 64,
    ensures
        r == blcg(a, c, s, b as nat),
        (r as int) < pow2(b as nat),
{
    let v = a.wrapping_mul(s).wrapping_add(c);
    proof {
        let w = 0x1_0000_0000_0000_0000int;
        vstd::arithmetic::div_mod::lemma_add_mod_noop(a * s, c as int, w);
        vstd::arithmetic::div_mod::lemma_mod_twice(a * s, w);
        vstd::arithmetic::div_mod::lemma_small_mod(c as nat, w as nat);
        assert(v == (a * s + c) % w);
        lemma_mod_nested(a * s + c, b as nat);
        vstd::arithmetic::power2::lemma_pow2_pos(b as nat);
        vstd::arithmetic::power2::lemma2_to64_rest();
    }
    if b == 64 {
        v
    } else {
        proof {
            vstd::bits::lemma_u64_pow2_no_overflow(b as nat);
            lemma_shl_mul(1, b as u64);
            vstd::bits::lemma_u64_low_bits_mask_is_mod(v, b as nat);
            assert(vstd::bits::low_bits_mask(b as nat) == pow2(b as nat) - 1);
        }
        v & ((1u64 << b) - 1)
    }
}

/// How far a `b`-bit LCG with multiplier `a`, increment `c` and first state
/// `s0` (as proposed by a solver) reproduces the first `limit` 54-bit
/// numerators.
pub fn lcg_reproduced(a: u64, c: u64, s0: u64, b: u32, n: &[u64], limit: usize) -> (r: usize)
    requires
        27 <= b <= 64,
        limit <= n.len(),
        (s0 as int) < pow2(b as nat),
    ensures
        r == lcg_run(a, c, s0, b as nat, n@.subrange(0, limit as int), 0),
{
    let ghost w = n@.subrange(0, limit as int);
    proof {
        vstd::bits::lemma_u64_pow2_no_overflow((b - 27) as nat);
        vstd::arithmetic::power2::lemma_pow2_pos((b - 27) as nat);
    }
    let sh = (b - 27) as u64;
    let mut s = s0;
    let mut ok: usize = 0;
    let mut j: usize = 0;
    while j < limit
        invariant
            j <= limit,
            limit <= n.len(),
            27 <= b <= 64,
            sh == b - 27,
            w == n@.subrange(0, limit as int),
            ok == j,
            (s as int) < pow2(b as nat),
            ok + lcg_run(a, c, s, b as nat, w, j as int) == lcg_run(a, c, s0, b as nat, w, 0),
        ensures
            ok == lcg_run(a, c, s0, b as nat, w, 0),
        decreases limit - j,
    {
        let ghost p = pow2(sh as nat);
        proof {
            lemma_shr_div(s, sh);
            vstd::arithmetic::power2::lemma_pow2_adds(sh as nat, 27);
            vstd::arithmetic::power2::lemma2_to64();
            assert(pow2(27) == 0x800_0000);
            assert(sh as nat + 27 == b as nat);
            assert(p > 0);
        }
        let hi = s >> sh;
        proof {
            assert(hi < 0x800_0000) by (nonlinear_arith)
                requires
                    hi == s as int / (p as int),
                    (s as int) < (p as int) * 0x800_0000,
                    p > 0,
            ;
        }
        let s1 = lcg_step(a, c, s, b);
        proof {
            lemma_shr_div(s1, sh);
        }
        let lo = s1 >> sh;
        proof {
            assert(lo < 0x800_0000) by (nonlinear_arith)
                requires
                    lo == s1 as int / (p as int),
                    (s1 as int) < (p as int) * 0x800_0000,
                    p > 0,
            ;
        }
        let s2 = lcg_step(a, c, s1, b);
        let np = hi * 0x800_0000 + lo;
        let want = n[j];
        if (np >= want && np - want <= 2) || (np < want && want - np <= 2) {
            ok = ok + 1;
            s = s2;
            j = j + 1;
        } else {
            break;
        }
    }
    ok
}

// ---- early V8 guesses, solved over GF(2) -------------------------------------------

/// How many observed numerators from index `j` on the in-order `s0 >> 12`
/// stream reproduces, from the state `off` steps after `seed`.
pub open spec fn in_order_run(seed: XorShift128Plus, off: nat, obs: Seq<u64>, j: int) -> nat
    decreases obs.len() - j,
{
    if j < 0 || j >= obs.len() {
        0
    } else if mantissa(iterate(seed, (off + j + 1) as nat).s0) == obs[j] {
        1 + in_order_run(seed, off, obs, j + 1)
    } else {
        0
    }
}

/// The 128 seed bits as a state.
fn seed_from_bits(x: u128) -> (r: XorShift128Plus)
    ensures
        r.s0 == x as u64,
        r.s1 == (x >> 64u128) as u64,
{
    XorShift128Plus::new(x as u64, (x >> 64) as u64)
}

/// The GF(2) rows that set bits `12..64` of a symbolic `s0` to the 52 bits of
/// a value: row `b` pairs the symbolic bit `12 + b` with bit `b`.
pub open spec fn value_rows(sym: Seq<u128>, value: u64) -> Seq<(u128, u8)> {
    Seq::new(52, |b: int| (sym[12 + b], ((value >> (b as u64)) & 1) as u8))
}

/// Append the rows that set bits `12..64` of the `s0` in `sym` to the 52 bits
/// of `value`.
fn push_rows(rows: &mut Vec<(u128, u8)>, sym: &Vec<u128>, value: u64)
    requires
        sym.len() == 64,
    ensures
        final(rows)@ == old(rows)@ + value_rows(sym@, value),
{
    let mut b: usize = 0;
    while b < 52
        invariant
            sym.len() == 64,
            b <= 52,
            rows@ == old(rows)@ + value_rows(sym@, value).take(b as int),
        decreases 52 - b,
    {
        rows.push((sym[12 + b], ((value >> b) & 1) as u8));
        b = b + 1;
        proof {
            assert(rows@ =~= old(rows)@ + value_rows(sym@, value).take(b as int));
        }
    }
    assert(value_rows(sym@, value).take(52) =~= value_rows(sym@, value));
}

/// The rows the first `m` observed values set: value `j` fixes the 52 kept
/// bits of the `s0` after `g(j) + 1` steps with shifts `(a, b, c)`.
pub open spec fn guess_rows(obs: Seq<u64>, g: spec_fn(int) -> nat, a: int, b: int, c: int, m: int) -> Seq<(u128, u8)>
    decreases m,
{
    if m <= 0 {
        Seq::empty()
    } else {
        guess_rows(obs, g, a, b, c, m - 1) + value_rows(sym_iter_with(g(m - 1) + 1, a, b, c).0, obs[m - 1])
    }
}

/// The first 60 observed values are the 52 kept bits of the `s0` after
/// `g(j) + 1` steps with shifts `(a, b, c)` from `t`.
pub open spec fn first60(t: XorShift128Plus, a: u64, b: u64, c: u64, g: spec_fn(int) -> nat, obs: Seq<u64>) -> bool {
    forall|j: int| 0 <= j < 60 ==> #[trigger] mantissa(iterate_with(t, a, b, c, g(j) + 1).s0) == obs[j]
}

/// `s` is the only state whose first 60 values under `g` are the observed
/// ones, so the 60 values' GF(2) system has no other solution.
pub open spec fn determined_by(s: XorShift128Plus, a: u64, b: u64, c: u64, g: spec_fn(int) -> nat, obs: Seq<u64>) -> bool {
    forall|t: XorShift128Plus| #[trigger] first60(t, a, b, c, g, obs) ==> t == s
}

/// Value `j` of the first `m` agrees in all 52 bits with the `s0` after `g(j) + 1`
/// steps from the state `x` stands for.
pub open spec fn bits_match(x: u128, a: u64, b: u64, c: u64, g: spec_fn(int) -> nat, obs: Seq<u64>, j: int) -> bool {
    forall|i: int|
        0 <= i < 52 ==> #[trigger] bit64(mantissa(iterate_with(seed_of(x), a, b, c, g(j) + 1).s0), i) == bit64(obs[j], i)
}

proof fn lemma_bit_le_one(x: u64)
    by (bit_vector)
    ensures
        x & 1 <= 1,
{
}

/// The rows of one value hold of `x` exactly when its 52 bits are those the
/// state `x` stands for keeps after `k` steps.
proof fn lemma_value_rows(x: u128, k: nat, v: u64, a: u64, b: u64, c: u64)
    requires
        a < 64,
        b < 64,
        c < 64,
    ensures
        rhs_are_bits(value_rows(sym_iter_with(k, a as int, b as int, c as int).0, v)),
        sat_all(value_rows(sym_iter_with(k, a as int, b as int, c as int).0, v), x) <==> forall|i: int|
            0 <= i < 52 ==> #[trigger] bit64(mantissa(iterate_with(seed_of(x), a, b, c, k).s0), i) == bit64(v, i),
{
    let rows = value_rows(sym_iter_with(k, a as int, b as int, c as int).0, v);
    let m = mantissa(iterate_with(seed_of(x), a, b, c, k).s0);
    assert forall|i: int| 0 <= i < 52 implies #[trigger] rows[i].1 <= 1 && (row_sat(rows[i], x) <==> bit64(m, i)
        == bit64(v, i)) by {
        lemma_bit_le_one(v >> (i as u64));
        lemma_mantissa_bits_with(x, k, i, a, b, c);
    }
    if sat_all(rows, x) {
        assert forall|i: int| 0 <= i < 52 implies #[trigger] bit64(m, i) == bit64(v, i) by {
            assert(row_sat(rows[i], x));
        }
    }
    if forall|i: int| 0 <= i < 52 ==> #[trigger] bit64(m, i) == bit64(v, i) {
        assert forall|i: int| 0 <= i < rows.len() implies #[trigger] row_sat(rows[i], x) by {
            assert(bit64(m, i) == bit64(v, i));
        }
    }
}

/// The rows of the first `m` values are single bits, and hold of `x` exactly
/// when every one of those values agrees with `x`'s.
proof fn lemma_guess_rows(obs: Seq<u64>, g: spec_fn(int) -> nat, a: u64, b: u64, c: u64, m: int, x: u128)
    requires
        a < 64,
        b < 64,
        c < 64,
        0 <= m <= obs.len(),
    ensures
        rhs_are_bits(guess_rows(obs, g, a as int, b as int, c as int, m)),
        sat_all(guess_rows(obs, g, a as int, b as int, c as int, m), x) <==> forall|j: int|
            0 <= j < m ==> #[trigger] bits_match(x, a, b, c, g, obs, j),
    decreases m,
{
    if m > 0 {
        lemma_guess_rows(obs, g, a, b, c, m - 1, x);
        let p = guess_rows(obs, g, a as int, b as int, c as int, m - 1);
        let q = value_rows(sym_iter_with(g(m - 1) + 1, a as int, b as int, c as int).0, obs[m - 1]);
        lemma_value_rows(x, g(m - 1) + 1, obs[m - 1], a, b, c);
        let pq = p + q;
        assert forall|i: int| 0 <= i < pq.len() implies #[trigger] pq[i].1 <= 1 by {
            if i >= p.len() {
                assert(pq[i] == q[i - p.len()]);
            }
        }
        assert(sat_all(pq, x) <==> sat_all(p, x) && sat_all(q, x)) by {
            if sat_all(pq, x) {
                assert forall|i: int| 0 <= i < p.len() implies #[trigger] row_sat(p[i], x) by {
                    assert(pq[i] == p[i]);
                }
                assert forall|i: int| 0 <= i < q.len() implies #[trigger] row_sat(q[i], x) by {
                    assert(pq[p.len() + i] == q[i]);
                }
            }
            if sat_all(p, x) && sat_all(q, x) {
                assert forall|i: int| 0 <= i < pq.len() implies #[trigger] row_sat(pq[i], x) by {
                    if i < p.len() {
                        assert(pq[i] == p[i]);
                    } else {
                        assert(pq[i] == q[i - p.len()]);
                    }
                }
            }
        }
        if sat_all(pq, x) {
            assert forall|j: int| 0 <= j < m implies #[trigger] bits_match(x, a, b, c, g, obs, j) by {
                if j == m - 1 {
                    assert forall|i: int| 0 <= i < 52 implies #[trigger] bit64(
                        mantissa(iterate_with(seed_of(x), a, b, c, g(j) + 1).s0),
                        i,
                    ) == bit64(obs[j], i) by {}
                }
            }
        }
        if forall|j: int| 0 <= j < m ==> #[trigger] bits_match(x, a, b, c, g, obs, j) {
            assert(bits_match(x, a, b, c, g, obs, m - 1));
            assert forall|j: int| 0 <= j < m - 1 implies #[trigger] bits_match(x, a, b, c, g, obs, j) by {}
        }
    }
}

/// A mantissa is below 2^52.
proof fn lemma_mantissa_bound(v: u64)
    ensures
        mantissa(v) < P52,
{
    assert(v / 0x1000 < 0x10_0000_0000_0000) by (nonlinear_arith)
        requires
            v <= u64::MAX,
    ;
}

/// The 60 values' system holds of a state whose first 60 values they are; and
/// any solution's state has those first 60 values.
proof fn lemma_guess_exact(obs: Seq<u64>, g: spec_fn(int) -> nat, a: u64, b: u64, c: u64, s: XorShift128Plus, x: u128)
    requires
        a < 64,
        b < 64,
        c < 64,
        obs.len() >= 60,
        first60(s, a, b, c, g, obs),
    ensures
        rhs_are_bits(guess_rows(obs, g, a as int, b as int, c as int, 60)),
        sat_all(guess_rows(obs, g, a as int, b as int, c as int, 60), state_bits(s)),
        sat_all(guess_rows(obs, g, a as int, b as int, c as int, 60), x) ==> first60(seed_of(x), a, b, c, g, obs),
{
    lemma_seed_of_state_bits(s);
    lemma_guess_rows(obs, g, a, b, c, 60, state_bits(s));
    assert forall|j: int| 0 <= j < 60 implies #[trigger] bits_match(state_bits(s), a, b, c, g, obs, j) by {
        assert(mantissa(iterate_with(s, a, b, c, g(j) + 1).s0) == obs[j]);
    }
    lemma_guess_rows(obs, g, a, b, c, 60, x);
    if sat_all(guess_rows(obs, g, a as int, b as int, c as int, 60), x) {
        assert forall|j: int| 0 <= j < 60 implies #[trigger] mantissa(iterate_with(seed_of(x), a, b, c, g(j) + 1).s0)
            == obs[j] by {
            assert(bits_match(x, a, b, c, g, obs, j));
            assert(mantissa(iterate_with(s, a, b, c, g(j) + 1).s0) == obs[j]);
            lemma_mantissa_bound(iterate_with(s, a, b, c, g(j) + 1).s0);
            lemma_mantissa_bound(iterate_with(seed_of(x), a, b, c, g(j) + 1).s0);
            lemma_bits_agree_52(mantissa(iterate_with(seed_of(x), a, b, c, g(j) + 1).s0), obs[j]);
        }
    }
}

/// A run of more than `n` from `j` matches each value `j ..= j + n`.
proof fn lemma_in_order_prefix(s: XorShift128Plus, off: nat, obs: Seq<u64>, j: int, n: nat)
    requires
        0 <= j,
        in_order_run(s, off, obs, j) > n,
    ensures
        forall|t: int| j <= t <= j + n ==> #[trigger] mantissa(iterate(s, (off + t + 1) as nat).s0) == obs[t],
    decreases n,
{
    if n > 0 {
        lemma_in_order_prefix(s, off, obs, j + 1, (n - 1) as nat);
    }
}

/// The in-order indices from offset `off`.
pub open spec fn in_order_at(off: nat) -> spec_fn(int) -> nat {
    |j: int| (off + j) as nat
}

/// `s` serves the capture in order from `off` for more than 100 values, and the
/// first 60 determine it.
pub open spec fn in_order_found(s: XorShift128Plus, off: nat, obs: Seq<u64>) -> bool {
    in_order_run(s, off, obs, 0) > 100 && determined_by(s, 23, 17, 26, in_order_at(off), obs)
}

/// Early V8 as `s0 >> 12` served in order (no cache), at an unknown offset
/// below 32: for each offset solve the GF(2) system of the first 60 values and
/// keep the first solution that reproduces more than 100 values in order. The
/// seed, the offset and how many values it reproduces.
pub fn v8_in_order(obs: &[u64]) -> (r: Option<(XorShift128Plus, usize, usize)>)
    requires
        obs.len() >= 60,
    ensures
        r matches Some((seed, off, ok)) ==> off < 32 && ok > 100 && ok == in_order_run(seed, off as nat, obs@, 0),
        (exists|s: XorShift128Plus, off: nat| off < 32 && #[trigger] in_order_found(s, off, obs@)) ==> r is Some,
{
    let (s0g, _) = symbolic_states(160, 23, 17, 26);
    let mut off: usize = 0;
    while off < 32
        invariant
            obs.len() >= 60,
            s0g.len() == 160,
            forall|i: int| 0 <= i < 160 ==> (#[trigger] s0g@[i]).len() == 64,
            forall|i: int| 0 <= i < 160 ==> (#[trigger] s0g@[i])@ == sym_iter_with((i + 1) as nat, 23, 17, 26).0,
            forall|s: XorShift128Plus, o: nat| o < off ==> !#[trigger] in_order_found(s, o, obs@),
        decreases 32 - off,
    {
        let ghost g = in_order_at(off as nat);
        let mut rows: Vec<(u128, u8)> = Vec::new();
        let mut j: usize = 0;
        while j < 60
            invariant
                j <= 60,
                off < 32,
                obs.len() >= 60,
                s0g.len() == 160,
                forall|i: int| 0 <= i < 160 ==> (#[trigger] s0g@[i]).len() == 64,
                forall|i: int| 0 <= i < 160 ==> (#[trigger] s0g@[i])@ == sym_iter_with((i + 1) as nat, 23, 17, 26).0,
                g == in_order_at(off as nat),
                rows@ == guess_rows(obs@, g, 23, 17, 26, j as int),
            decreases 60 - j,
        {
            push_rows(&mut rows, &s0g[off + j], obs[j]);
            assert(g(j as int) + 1 == off + j + 1);
            j = j + 1;
        }
        let ghost all_rows = rows@;
        let sr = solve_128(rows);
        if let Some(sol) = sr {
            let seed = seed_from_bits(sol);
            let mut st = seed;
            let mut k: usize = 0;
            while k < off
                invariant
                    k <= off,
                    st == iterate(seed, k as nat),
                decreases off - k,
            {
                st.next_state();
                k = k + 1;
            }
            let mut ok: usize = 0;
            while ok < obs.len()
                invariant_except_break
                    st == iterate(seed, (off + ok) as nat),
                invariant
                    ok <= obs.len(),
                    ok + in_order_run(seed, off as nat, obs@, ok as int) == in_order_run(seed, off as nat, obs@, 0),
                ensures
                    ok == in_order_run(seed, off as nat, obs@, 0),
                decreases obs.len() - ok,
            {
                st.next_state();
                if to_double(st.s0) != obs[ok] {
                    assert(st == iterate(seed, (off + ok + 1) as nat));
                    assert(in_order_run(seed, off as nat, obs@, ok as int) == 0);
                    break;
                }
                ok = ok + 1;
            }
            if ok > 100 {
                return Some((seed, off, ok));
            }
            proof {
                assert forall|s: XorShift128Plus| !#[trigger] in_order_found(s, off as nat, obs@) by {
                    if in_order_found(s, off as nat, obs@) {
                        lemma_in_order_prefix(s, off as nat, obs@, 0, 100);
                        assert forall|j: int| 0 <= j < 60 implies #[trigger] mantissa(
                            iterate_with(s, 23, 17, 26, g(j) + 1).s0,
                        ) == obs@[j] by {
                            lemma_iterate_with_std(s, g(j) + 1);
                            assert(mantissa(iterate(s, (off + j + 1) as nat).s0) == obs@[j]);
                        }
                        lemma_guess_exact(obs@, g, 23, 17, 26, s, sol);
                        assert(first60(seed_of(sol), 23, 17, 26, g, obs@));
                        assert(seed_of(sol) == s);
                        assert(seed == s);
                    }
                }
            }
        } else {
            proof {
                assert forall|s: XorShift128Plus| !#[trigger] in_order_found(s, off as nat, obs@) by {
                    if in_order_found(s, off as nat, obs@) {
                        lemma_in_order_prefix(s, off as nat, obs@, 0, 100);
                        assert forall|j: int| 0 <= j < 60 implies #[trigger] mantissa(
                            iterate_with(s, 23, 17, 26, g(j) + 1).s0,
                        ) == obs@[j] by {
                            lemma_iterate_with_std(s, g(j) + 1);
                            assert(mantissa(iterate(s, (off + j + 1) as nat).s0) == obs@[j]);
                        }
                        lemma_guess_exact(obs@, g, 23, 17, 26, s, 0);
                        assert(consistent(all_rows));
                    }
                }
            }
        }
        off = off + 1;
    }
    None
}

/// How many observed numerators from index `j` on a reversed cache of 64 with
/// shifts `(a, b, c)` reproduces from batch offset `o`.
pub open spec fn shifted_cache_run(seed: XorShift128Plus, a: u64, b: u64, c: u64, o: nat, obs: Seq<u64>, j: int) -> nat
    decreases obs.len() - j,
{
    if j < 0 || j >= obs.len() {
        0
    } else if mantissa(iterate_with(seed, a, b, c, gen_index_spec(o, j as nat) + 1).s0) == obs[j] {
        1 + shifted_cache_run(seed, a, b, c, o, obs, j + 1)
    } else {
        0
    }
}

/// The reversed-cache indices from batch offset `o`.
pub open spec fn cache_at(o: nat) -> spec_fn(int) -> nat {
    |j: int| gen_index_spec(o, j as nat)
}

/// `s` serves the capture from a reversed cache with shifts `(a, b, c)` at
/// offset `o` for more than 100 values, and the first 60 determine it.
pub open spec fn cache_found(s: XorShift128Plus, a: u64, b: u64, c: u64, o: nat, obs: Seq<u64>) -> bool {
    shifted_cache_run(s, a, b, c, o, obs, 0) > 100 && determined_by(s, a, b, c, cache_at(o), obs)
}

/// A run of more than `n` from `j` matches each value `j ..= j + n`.
proof fn lemma_cache_prefix(s: XorShift128Plus, a: u64, b: u64, c: u64, o: nat, obs: Seq<u64>, j: int, n: nat)
    requires
        0 <= j,
        shifted_cache_run(s, a, b, c, o, obs, j) > n,
    ensures
        forall|t: int|
            j <= t <= j + n ==> #[trigger] mantissa(iterate_with(s, a, b, c, gen_index_spec(o, t as nat) + 1).s0)
                == obs[t],
    decreases n,
{
    if n > 0 {
        lemma_cache_prefix(s, a, b, c, o, obs, j + 1, (n - 1) as nat);
    }
}

/// Early V8 as `s0 >> 12` from a reversed cache of 64 with shifts `(a, b, c)`:
/// for each batch offset solve the GF(2) system of the first 60 values and
/// keep the first solution that reproduces more than 100 values. The seed, the
/// offset and how many values it reproduces.
pub fn v8_shifted_cache(obs: &[u64], a: u64, b: u64, c: u64) -> (r: Option<(XorShift128Plus, usize, usize)>)
    requires
        obs.len() >= 60,
        obs.len() + 128 <= usize::MAX,
        1 <= a < 64,
        1 <= b < 64,
        1 <= c < 64,
    ensures
        r matches Some((seed, o, ok)) ==> o < 64 && ok > 100 && ok == shifted_cache_run(seed, a, b, c, o as nat, obs@, 0),
        (exists|s: XorShift128Plus, o: nat| o < 64 && #[trigger] cache_found(s, a, b, c, o, obs@)) ==> r is Some,
{
    let (s0g, _) = symbolic_states(192, a as usize, b as usize, c as usize);
    let mut o: usize = 0;
    while o < 64
        invariant
            obs.len() >= 60,
            obs.len() + 128 <= usize::MAX,
            1 <= a < 64,
            1 <= b < 64,
            1 <= c < 64,
            s0g.len() == 192,
            forall|i: int| 0 <= i < 192 ==> (#[trigger] s0g@[i]).len() == 64,
            forall|i: int|
                0 <= i < 192 ==> (#[trigger] s0g@[i])@ == sym_iter_with((i + 1) as nat, a as int, b as int, c as int).0,
            forall|s: XorShift128Plus, q: nat| q < o ==> !#[trigger] cache_found(s, a, b, c, q, obs@),
        decreases 64 - o,
    {
        let ghost gi = cache_at(o as nat);
        let mut rows: Vec<(u128, u8)> = Vec::new();
        let mut j: usize = 0;
        while j < 60
            invariant
                j <= 60,
                o < 64,
                obs.len() >= 60,
                s0g.len() == 192,
                forall|i: int| 0 <= i < 192 ==> (#[trigger] s0g@[i]).len() == 64,
                forall|i: int|
                    0 <= i < 192 ==> (#[trigger] s0g@[i])@ == sym_iter_with((i + 1) as nat, a as int, b as int, c as int).0,
                gi == cache_at(o as nat),
                rows@ == guess_rows(obs@, gi, a as int, b as int, c as int, j as int),
            decreases 60 - j,
        {
            let g = gen_index(o, j);
            assert(g < 192) by (nonlinear_arith)
                requires
                    g == ((o + j) / 64) * 64 + 63 - (o + j) % 64,
                    o + j < 124,
            ;
            push_rows(&mut rows, &s0g[g], obs[j]);
            assert(gi(j as int) == g);
            j = j + 1;
        }
        let ghost all_rows = rows@;
        let sr = solve_128(rows);
        if sr.is_none() {
            proof {
                assert forall|s: XorShift128Plus| !#[trigger] cache_found(s, a, b, c, o as nat, obs@) by {
                    if cache_found(s, a, b, c, o as nat, obs@) {
                        lemma_cache_prefix(s, a, b, c, o as nat, obs@, 0, 100);
                        assert forall|j: int| 0 <= j < 60 implies #[trigger] mantissa(
                            iterate_with(s, a, b, c, gi(j) + 1).s0,
                        ) == obs@[j] by {
                            assert(mantissa(iterate_with(s, a, b, c, gen_index_spec(o as nat, j as nat) + 1).s0) == obs@[j]);
                        }
                        lemma_guess_exact(obs@, gi, a, b, c, s, 0);
                        assert(consistent(all_rows));
                    }
                }
            }
        }
        if let Some(sol) = sr {
            let seed = seed_from_bits(sol);
            // The states after 1, 2, ... steps, as far as the served values need.
            let need = o + obs.len() + 64;
            let mut states: Vec<u64> = Vec::new();
            let mut st = seed;
            while states.len() < need
                invariant
                    states.len() <= need,
                    1 <= a < 64,
                    1 <= b < 64,
                    1 <= c < 64,
                    st == iterate_with(seed, a, b, c, states.len() as nat),
                    forall|k: int| 0 <= k < states.len() ==> states@[k] == iterate_with(seed, a, b, c, (k + 1) as nat).s0,
                decreases need - states.len(),
            {
                let x = st.s0 ^ (st.s0 << a);
                let x = x ^ (x >> b);
                st = XorShift128Plus::new(st.s1, x ^ st.s1 ^ (st.s1 >> c));
                states.push(st.s0);
            }
            let mut ok: usize = 0;
            while ok < obs.len()
                invariant
                    ok <= obs.len(),
                    o < 64,
                    obs.len() + 128 <= usize::MAX,
                    states.len() == o + obs.len() + 64,
                    forall|k: int| 0 <= k < states.len() ==> states@[k] == iterate_with(seed, a, b, c, (k + 1) as nat).s0,
                    ok + shifted_cache_run(seed, a, b, c, o as nat, obs@, ok as int) == shifted_cache_run(
                        seed,
                        a,
                        b,
                        c,
                        o as nat,
                        obs@,
                        0,
                    ),
                ensures
                    ok == shifted_cache_run(seed, a, b, c, o as nat, obs@, 0),
                decreases obs.len() - ok,
            {
                let g = gen_index(o, ok);
                assert(g < o + ok + 64) by (nonlinear_arith)
                    requires
                        g == ((o + ok) / 64) * 64 + 63 - (o + ok) % 64,
                ;
                if to_double(states[g]) != obs[ok] {
                    break;
                }
                ok = ok + 1;
            }
            if ok > 100 {
                return Some((seed, o, ok));
            }
            proof {
                assert forall|s: XorShift128Plus| !#[trigger] cache_found(s, a, b, c, o as nat, obs@) by {
                    if cache_found(s, a, b, c, o as nat, obs@) {
                        lemma_cache_prefix(s, a, b, c, o as nat, obs@, 0, 100);
                        assert forall|j: int| 0 <= j < 60 implies #[trigger] mantissa(
                            iterate_with(s, a, b, c, gi(j) + 1).s0,
                        ) == obs@[j] by {
                            assert(mantissa(iterate_with(s, a, b, c, gen_index_spec(o as nat, j as nat) + 1).s0) == obs@[j]);
                        }
                        lemma_guess_exact(obs@, gi, a, b, c, s, sol);
                        assert(first60(seed_of(sol), a, b, c, gi, obs@));
                        assert(seed_of(sol) == s);
                        assert(seed == s);
                    }
                }
            }
        }
        o = o + 1;
    }
    None
}

// ---- comparing runs ---------------------------------------------------------------

/// `p` is where `g` and `o` first disagree by more than `tol` (or the end of
/// the shorter one).
pub open spec fn is_agreeing_prefix(g: Seq<u64>, o: Seq<u64>, tol: u64, p: int) -> bool {
    &&& 0 <= p <= g.len()
    &&& p <= o.len()
    &&& forall|i: int| 0 <= i < p ==> close(#[trigger] g[i], o[i], tol)
    &&& p < g.len() && p < o.len() ==> !close(g[p], o[p], tol)
}

/// How many leading values of a regenerated run `g` agree with the observed
/// `o` within `tol`.
pub fn agreeing_prefix(g: &[u64], o: &[u64], tol: u64) -> (r: usize)
    ensures
        is_agreeing_prefix(g@, o@, tol, r as int),
{
    let mut i: usize = 0;
    while i < g.len() && i < o.len()
        invariant
            i <= g.len(),
            i <= o.len(),
            forall|j: int| 0 <= j < i ==> close(#[trigger] g@[j], o@[j], tol),
        decreases g.len() - i,
    {
        if !within(g[i], o[i], tol) {
            return i;
        }
        i = i + 1;
    }
    i
}

/// `o` with every full block of `blk` values reversed in place (a trailing
/// partial block, and everything when `blk` is at most 1, kept as is): undoing
/// an engine that serves each batch it generates backwards.
pub open spec fn reversed_in_blocks(o: Seq<u64>, blk: nat) -> Seq<u64> {
    Seq::new(
        o.len(),
        |j: int|
            if blk > 1 && (j / blk as int + 1) * blk <= o.len() {
                o[(j / blk as int) * blk + blk - 1 - j % blk as int]
            } else {
                o[j]
            },
    )
}

/// Reverse every full block of `blk` values.
pub fn reversed_blocks(o: &[u64], blk: usize) -> (r: Vec<u64>)
    ensures
        r@ == reversed_in_blocks(o@, blk as nat),
{
    let mut out: Vec<u64> = Vec::new();
    let mut i: usize = 0;
    if blk > 1 {
        let ghost mut q: int = 0;
        while blk <= o.len() - i
            invariant
                blk > 1,
                i <= o.len(),
                i == q * blk,
                q >= 0,
                out@.len() == i,
                forall|j: int| 0 <= j < i ==> out@[j] == #[trigger] reversed_in_blocks(o@, blk as nat)[j],
            decreases o.len() - i,
        {
            let mut t: usize = 0;
            while t < blk
                invariant
                    blk > 1,
                    i + blk <= o.len(),
                    i == q * blk,
                    q >= 0,
                    t <= blk,
                    out@.len() == i + t,
                    forall|j: int| 0 <= j < i + t ==> out@[j] == #[trigger] reversed_in_blocks(o@, blk as nat)[j],
                decreases blk - t,
            {
                out.push(o[i + blk - 1 - t]);
                proof {
                    let j = i + t;
                    lemma_fundamental_div_mod_converse(j as int, blk as int, q, t as int);
                    assert((q + 1) * blk == i + blk) by (nonlinear_arith)
                        requires
                            i == q * blk,
                    ;
                    assert(out@[j as int] == reversed_in_blocks(o@, blk as nat)[j as int]);
                }
                t = t + 1;
            }
            i = i + blk;
            proof {
                q = q + 1;
                assert(i == q * blk) by (nonlinear_arith)
                    requires
                        i == (q - 1) * blk + blk,
                ;
            }
        }
        proof {
            assert forall|j: int| i <= j < o.len() implies reversed_in_blocks(o@, blk as nat)[j] == o@[j] by {
                lemma_fundamental_div_mod_converse(j, blk as int, q, j - i);
                assert((q + 1) * blk == i + blk) by (nonlinear_arith)
                    requires
                        i == q * blk,
                ;
            }
        }
    }
    while i < o.len()
        invariant
            i <= o.len(),
            out@.len() == i,
            forall|j: int| 0 <= j < i ==> out@[j] == #[trigger] reversed_in_blocks(o@, blk as nat)[j],
            forall|j: int| i <= j < o.len() ==> reversed_in_blocks(o@, blk as nat)[j] == o@[j],
        decreases o.len() - i,
    {
        out.push(o[i]);
        i = i + 1;
    }
    assert(out@ =~= reversed_in_blocks(o@, blk as nat));
    out
}

// ---- Modern SpiderMonkey by solver: the order of attempts -----------------

/// One attempt of the solver search on a modern-SpiderMonkey capture (53-bit
/// numerators), in the order they are made: the confirmed shifts (23,17,26)
/// with output `s0 + s1` on the first 8 values; free shifts on the first 6;
/// then 32 windows, window `k` taking block reversal `[1, 64, 128, 256][k / 8]`,
/// start `[0, 100][(k / 4) % 2]`, output `s0 + s1` or `s0` by `(k / 2) % 2`,
/// and shifts `[(23,17,26), (23,18,5)][k % 2]`.
#[derive(Clone, Copy, Debug, PartialEq, Eq, Structural)]
pub enum SmProbe {
    Confirmed,
    FreeShift,
    Window(usize),
}

/// What the search does next: ask the solver a script for an attempt, stop
/// with the state an attempt found, or stop with every attempt spent.
#[derive(Debug)]
pub enum SmStep {
    Ask(SmProbe, Vec<u8>),
    Found(SmProbe, u64, u64),
    Exhausted,
}

impl SmProbe {
    /// Seconds the solver gets for this attempt.
    pub fn time_limit(&self) -> (r: u32)
        ensures
            r == if *self is FreeShift {
                300u32
            } else {
                60u32
            },
    {
        match self {
            SmProbe::FreeShift => 300,
            _ => 60,
        }
    }
}

/// Number of windows tried after the free-shift attempt.
pub const SM_WINDOWS: usize = 32;

/// Values a window attempt must reproduce exactly before the search stops.
pub const SM_ENOUGH: usize = 20;

/// The block length window `k` reverses.
pub open spec fn sm_block(k: nat) -> nat {
    if k / 8 == 0 {
        1
    } else if k / 8 == 1 {
        64
    } else if k / 8 == 2 {
        128
    } else {
        256
    }
}

/// Where window `k` starts.
pub open spec fn sm_start(k: nat) -> nat {
    if (k / 4) % 2 == 0 {
        0
    } else {
        100
    }
}

/// Whether window `k` reads the output as `s0 + s1`.
pub open spec fn sm_sum(k: nat) -> bool {
    (k / 2) % 2 == 0
}

/// The shift triple window `k` assumes.
pub open spec fn sm_shifts(k: nat) -> Shifts {
    if k % 2 == 0 {
        Shifts::Fixed(23, 17, 26)
    } else {
        Shifts::Fixed(23, 18, 5)
    }
}

/// The values window `k` hands the solver.
pub open spec fn sm_window(base: Seq<u64>, k: nat) -> Seq<u64> {
    reversed_in_blocks(base, sm_block(k)).subrange(sm_start(k) as int, base.len() as int)
}

/// An attempt's place in the order.
pub open spec fn sm_rank(p: SmProbe) -> nat {
    match p {
        SmProbe::Confirmed => 0,
        SmProbe::FreeShift => 1,
        SmProbe::Window(k) => (k + 2) as nat,
    }
}

/// The attempt at place `r`.
pub open spec fn sm_probe_at(r: nat) -> SmProbe {
    if r == 0 {
        SmProbe::Confirmed
    } else if r == 1 {
        SmProbe::FreeShift
    } else {
        SmProbe::Window((r - 2) as usize)
    }
}

/// An attempt can be made on a capture of `n` values.
pub open spec fn sm_applicable(n: nat, p: SmProbe) -> bool {
    match p {
        SmProbe::Confirmed => n >= 8,
        SmProbe::FreeShift => n >= 6,
        SmProbe::Window(k) => k < SM_WINDOWS && sm_start(k as nat) + 8 <= n,
    }
}

/// The script an attempt asks.
pub open spec fn sm_script(base: Seq<u64>, p: SmProbe) -> Seq<u8> {
    match p {
        SmProbe::Confirmed => xorshift_text(base, 8, 53, Shifts::Fixed(23, 17, 26), true),
        SmProbe::FreeShift => xorshift_text(base, 6, 53, Shifts::Free, true),
        SmProbe::Window(k) => xorshift_text(sm_window(base, k as nat), 8, 53, sm_shifts(k as nat), sm_sum(k as nat)),
    }
}

/// The regeneration a window's proposed state is checked with: its first
/// `min(len, 64)` outputs.
pub open spec fn sm_regen(base: Seq<u64>, k: nat, s0: u64, s1: u64) -> Seq<u64> {
    let len = sm_window(base, k).len();
    sm_outputs(XorShift128Plus { s0, s1 }, if len < 64 { len } else { 64 })
}

/// A window's proposed state reproduces more than [`SM_ENOUGH`] leading
/// values exactly.
pub open spec fn sm_convinces(base: Seq<u64>, k: nat, s0: u64, s1: u64) -> bool {
    exists|c: int| c > SM_ENOUGH && #[trigger] is_agreeing_prefix(sm_regen(base, k, s0, s1), sm_window(base, k), 0, c)
}

/// `Ask` for the first attempt at place `from` or later that the capture
/// allows, `Exhausted` if none does.
pub open spec fn sm_next(base: Seq<u64>, from: nat, r: SmStep) -> bool {
    match r {
        SmStep::Ask(q, script) => {
            &&& from <= sm_rank(q)
            &&& sm_applicable(base.len(), q)
            &&& forall|t: nat| from <= t < sm_rank(q) ==> !sm_applicable(base.len(), #[trigger] sm_probe_at(t))
            &&& script@ == sm_script(base, q)
        },
        SmStep::Found(..) => false,
        SmStep::Exhausted => forall|t: nat| from <= t < SM_WINDOWS + 2 ==> !sm_applicable(base.len(), #[trigger] sm_probe_at(t)),
    }
}

/// The block length of window `k`.
fn sm_block_of(k: usize) -> (r: usize)
    ensures
        r == sm_block(k as nat),
{
    if k / 8 == 0 {
        1
    } else if k / 8 == 1 {
        64
    } else if k / 8 == 2 {
        128
    } else {
        256
    }
}

/// The start of window `k`.
fn sm_start_of(k: usize) -> (r: usize)
    ensures
        r == sm_start(k as nat),
{
    if (k / 4) % 2 == 0 {
        0
    } else {
        100
    }
}

/// The values window `k` hands the solver.
pub fn sm_window_values(base: &[u64], k: usize) -> (r: Vec<u64>)
    requires
        sm_start(k as nat) <= base.len(),
    ensures
        r@ == sm_window(base@, k as nat),
{
    let o = reversed_blocks(base, sm_block_of(k));
    let start = sm_start_of(k);
    vstd::slice::slice_to_vec(vstd::slice::slice_subrange(o.as_slice(), start, o.len()))
}

/// How many leading values of window `k` the proposed state `(s0, s1)`
/// reproduces exactly, over its first `min(len, 64)` outputs.
pub fn sm_window_agreement(base: &[u64], k: usize, s0: u64, s1: u64) -> (r: usize)
    requires
        sm_start(k as nat) <= base.len(),
    ensures
        is_agreeing_prefix(sm_regen(base@, k as nat, s0, s1), sm_window(base@, k as nat), 0, r as int),
{
    let win = sm_window_values(base, k);
    let n = if win.len() < 64 {
        win.len()
    } else {
        64
    };
    let regen = spidermonkey::generate(XorShift128Plus::new(s0, s1), n);
    agreeing_prefix(regen.as_slice(), win.as_slice(), 0)
}

/// The first attempt at place `from` or later that the capture allows.
fn sm_ask_from(base: &[u64], from: usize) -> (r: SmStep)
    requires
        from <= SM_WINDOWS + 2,
    ensures
        sm_next(base@, from as nat, r),
{
    let n = base.len();
    if from == 0 && n >= 8 {
        return SmStep::Ask(SmProbe::Confirmed, xorshift_script(base, 8, 53, Shifts::Fixed(23, 17, 26), true));
    }
    if from <= 1 && n >= 6 {
        proof {
            if from == 0 {
                assert(!sm_applicable(n as nat, sm_probe_at(0)));
            }
        }
        return SmStep::Ask(SmProbe::FreeShift, xorshift_script(base, 6, 53, Shifts::Free, true));
    }
    let mut k: usize = if from >= 2 {
        from - 2
    } else {
        0
    };
    proof {
        assert forall|t: nat| from <= t < k + 2 implies !sm_applicable(n as nat, #[trigger] sm_probe_at(t)) by {}
    }
    while k < SM_WINDOWS
        invariant
            n == base.len(),
            from <= k + 2,
            k <= SM_WINDOWS,
            forall|t: nat| from <= t < k + 2 ==> !sm_applicable(n as nat, #[trigger] sm_probe_at(t)),
        decreases SM_WINDOWS - k,
    {
        let start = sm_start_of(k);
        if start + 8 <= n {
            let win = sm_window_values(base, k);
            let (sa, sb, sc): (u32, u32, u32) = if k % 2 == 0 {
                (23, 17, 26)
            } else {
                (23, 18, 5)
            };
            let script = xorshift_script(win.as_slice(), 8, 53, Shifts::Fixed(sa, sb, sc), (k / 2) % 2 == 0);
            proof {
                assert(sm_probe_at((k + 2) as nat) == SmProbe::Window(k));
            }
            return SmStep::Ask(SmProbe::Window(k), script);
        }
        proof {
            assert(sm_probe_at((k + 2) as nat) == SmProbe::Window(k));
        }
        k = k + 1;
    }
    SmStep::Exhausted
}

/// The search's first step on a capture of 53-bit numerators.
pub fn sm_z3_start(base: &[u64]) -> (r: SmStep)
    ensures
        sm_next(base@, 0, r),
{
    sm_ask_from(base, 0)
}

/// The search's next step once the solver has answered attempt `at` with
/// the state it proposes (`None`: unsat, unknown or no answer). The confirmed
/// and free-shift attempts stop the search on any state; a window stops it
/// only when the state reproduces more than [`SM_ENOUGH`] of its values.
/// Otherwise the search goes on from the attempt after `at`.
pub fn sm_z3_resume(base: &[u64], at: SmProbe, answer: Option<(u64, u64)>) -> (r: SmStep)
    requires
        sm_applicable(base@.len(), at),
    ensures
        answer is None ==> sm_next(base@, sm_rank(at) + 1, r),
        !(at is Window) ==> (answer matches Some(st) ==> r == SmStep::Found(at, st.0, st.1)),
        at matches SmProbe::Window(k) ==> (answer matches Some(st) ==> if sm_convinces(base@, k as nat, st.0, st.1) {
            r == SmStep::Found(at, st.0, st.1)
        } else {
            sm_next(base@, sm_rank(at) + 1, r)
        }),
{
    if let Some((s0, s1)) = answer {
        match at {
            SmProbe::Window(k) => {
                let ok = sm_window_agreement(base, k, s0, s1);
                proof {
                    lemma_agreeing_prefix_unique(
                        sm_regen(base@, k as nat, s0, s1),
                        sm_window(base@, k as nat),
                        0,
                        ok as int,
                    );
                }
                if ok > SM_ENOUGH {
                    return SmStep::Found(at, s0, s1);
                }
                sm_ask_from(base, k + 3)
            },
            _ => SmStep::Found(at, s0, s1),
        }
    } else {
        match at {
            SmProbe::Confirmed => sm_ask_from(base, 1),
            SmProbe::FreeShift => sm_ask_from(base, 2),
            SmProbe::Window(k) => sm_ask_from(base, k + 3),
        }
    }
}

/// The agreeing prefix of two runs is unique.
proof fn lemma_agreeing_prefix_unique(g: Seq<u64>, o: Seq<u64>, tol: u64, p: int)
    requires
        is_agreeing_prefix(g, o, tol, p),
    ensures
        forall|c: int| #[trigger] is_agreeing_prefix(g, o, tol, c) ==> c == p,
{
    assert forall|c: int| #[trigger] is_agreeing_prefix(g, o, tol, c) implies c == p by {
        if c < p {
            assert(close(g[c], o[c], tol));
        } else if p < c {
            assert(close(g[p], o[p], tol));
        }
    }
}

} // verus!
