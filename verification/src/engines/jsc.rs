//! JavaScriptCore `Math.random()` — Safari / iOS WebViews.
//!
//! Safari ≤ 8 used **WeakRandom = "GameRand"** (Ian Bullard, 2009): a tiny
//! 64-bit-state PRNG (two 32-bit words), output `m_high / 2^32` (grid 2⁻³²).
//! Safari ≥ 9 switched WeakRandom to xorshift128+.
//!
//! GameRand (runtime/WeakRandom.h):
//! ```text
//! advance(): m_high = rotl32(m_high,16) + m_low; m_low += m_high; return m_high
//! get():     advance() / 2^32
//! seed:      m_low = seed ^ 0x49616E42 ("IanB"); m_high = seed
//! ```
//! The output is the *full* 32-bit `m_high`, so two consecutive outputs recover
//! the hidden `m_low` in closed form — no search needed. Each output is handled
//! here as its 32-bit numerator over 2³².
use vstd::prelude::*;

verus! {

/// `"IanB"`: the word GameRand xors into the seed for its low half.
pub const IANB: u32 = 0x4961_6E42;

/// GameRand state: the two 32-bit accumulators.
#[derive(Clone, Copy, Debug, PartialEq, Eq, Structural)]
pub struct GameRand {
    pub low: u32,
    pub high: u32,
}

/// Rotate a 32-bit word left by 16 (equivalently right by 16).
pub open spec fn rot16(x: u32) -> u32 {
    (x << 16u32) | (x >> 16u32)
}

/// The state after one `advance()`.
pub open spec fn advance_spec(s: GameRand) -> GameRand {
    let high = rot16(s.high).wrapping_add(s.low);
    GameRand { low: s.low.wrapping_add(high), high }
}

/// The state one `advance()` before `s`.
pub open spec fn back_spec(s: GameRand) -> GameRand {
    let low = s.low.wrapping_sub(s.high);
    GameRand { low, high: rot16(s.high.wrapping_sub(low)) }
}

/// `k` advances.
pub open spec fn iter(s: GameRand, k: nat) -> GameRand
    decreases k,
{
    if k == 0 {
        s
    } else {
        advance_spec(iter(s, (k - 1) as nat))
    }
}

/// `k` steps back.
pub open spec fn back(s: GameRand, k: nat) -> GameRand
    decreases k,
{
    if k == 0 {
        s
    } else {
        back_spec(back(s, (k - 1) as nat))
    }
}

/// The first `n` outputs from `s`: the high word after each advance.
pub open spec fn outputs(s: GameRand, n: nat) -> Seq<u32> {
    Seq::new(n, |k: int| iter(s, (k + 1) as nat).high)
}

/// The state GameRand is seeded into.
pub open spec fn seeded_spec(seed: u32) -> GameRand {
    GameRand { low: seed ^ IANB, high: seed }
}

/// One `advance()` updates the high word first, from the old words: the new
/// high word is the old high word with its halves swapped plus the old low
/// word, and only then does the low word take in the *new* high word.
pub proof fn lemma_advance_high_first(s: GameRand)
    ensures
        advance_spec(s).high == ((s.high << 16u32) | (s.high >> 16u32)).wrapping_add(s.low),
        advance_spec(s).low == s.low.wrapping_add(advance_spec(s).high),
{
}

/// Seeding puts the seed itself in the high word and the seed xored with
/// the bytes of "IanB" (`0x49 0x61 0x6E 0x42`) in the low word.
pub proof fn lemma_seeded_words(seed: u32)
    ensures
        seeded_spec(seed).high == seed,
        seeded_spec(seed).low == seed ^ 0x4961_6E42u32,
        IANB == 0x49u32 * 0x100_0000 + 0x61u32 * 0x1_0000 + 0x6Eu32 * 0x100 + 0x42u32,
{
}

/// Two consecutive outputs give the low word in between: after one advance
/// from any state, the low word is the next output minus the current output
/// with its halves swapped. This is what recovery from two outputs rests on.
pub proof fn lemma_two_outputs_give_low(s: GameRand)
    ensures
        advance_spec(s).low == advance_spec(advance_spec(s)).high.wrapping_sub(
            (advance_spec(s).high << 16u32) | (advance_spec(s).high >> 16u32),
        ),
{
    let a = advance_spec(s);
    let b = advance_spec(a);
    assert(b.high == rot16(a.high).wrapping_add(a.low));
    assert(b.high.wrapping_sub(rot16(a.high)) == a.low);
}

proof fn lemma_rot16_involution(x: u32)
    by (bit_vector)
    ensures
        rot16(rot16(x)) == x,
{
}

proof fn lemma_xor_solve(h: u32, l: u32)
    by (bit_vector)
    ensures
        h ^ l == IANB ==> l == h ^ IANB,
{
}

pub(crate) fn rot16_exec(x: u32) -> (r: u32)
    ensures
        r == rot16(x),
{
    (x << 16) | (x >> 16)
}

impl GameRand {
    /// Seed exactly as JSC does (per JSGlobalObject).
    pub fn seeded(seed: u32) -> (r: Self)
        ensures
            r == seeded_spec(seed),
    {
        GameRand { low: seed ^ IANB, high: seed }
    }

    /// Advance and return the 32-bit output (`m_high` after mixing).
    pub fn advance(&mut self) -> (r: u32)
        ensures
            *final(self) == advance_spec(*old(self)),
            r == final(self).high,
    {
        self.high = rot16_exec(self.high).wrapping_add(self.low);
        self.low = self.low.wrapping_add(self.high);
        self.high
    }
}

/// Stepping back undoes an advance.
pub proof fn lemma_back_after_advance(s: GameRand)
    ensures
        back_spec(advance_spec(s)) == s,
{
    let a = advance_spec(s);
    assert(a.low.wrapping_sub(a.high) == s.low);
    assert(a.high.wrapping_sub(s.low) == rot16(s.high));
    lemma_rot16_involution(s.high);
}

/// Advancing undoes a step back: every state has exactly one predecessor.
pub proof fn lemma_advance_after_back(s: GameRand)
    ensures
        advance_spec(back_spec(s)) == s,
{
    let b = back_spec(s);
    lemma_rot16_involution(s.high.wrapping_sub(b.low));
    assert(rot16(b.high) == s.high.wrapping_sub(b.low));
}

/// Generate `n` outputs (numerators over 2³²) starting from `state` (state
/// before the first output).
pub fn generate(state: GameRand, n: usize) -> (out: Vec<u32>)
    ensures
        out@ == outputs(state, n as nat),
{
    let mut st = state;
    let mut out: Vec<u32> = Vec::new();
    let mut k: usize = 0;
    while k < n
        invariant
            k <= n,
            out.len() == k,
            st == iter(state, k as nat),
            forall|j: int| 0 <= j < k ==> #[trigger] out@[j] == iter(state, (j + 1) as nat).high,
        decreases n - k,
    {
        let v = st.advance();
        out.push(v);
        k = k + 1;
    }
    proof {
        assert(out@ =~= outputs(state, n as nat));
    }
    out
}

/// Some state produces `obs`.
pub open spec fn reproducible(obs: Seq<u32>) -> bool {
    exists|st: GameRand| outputs(st, obs.len()) == obs
}

/// The state that the first two outputs force.
pub open spec fn forced_state(h0: u32, h1: u32) -> GameRand {
    back_spec(GameRand { low: h1.wrapping_sub(rot16(h0)), high: h0 })
}

/// Two outputs determine the state that produced them.
pub proof fn lemma_outputs_force_state(st: GameRand, n: nat)
    requires
        n >= 2,
    ensures
        st == forced_state(outputs(st, n)[0], outputs(st, n)[1]),
{
    let s1 = iter(st, 1);
    let s2 = iter(st, 2);
    assert(iter(st, 0) == st);
    assert(s1 == advance_spec(st));
    assert(s2 == advance_spec(s1));
    assert(outputs(st, n)[0] == s1.high);
    assert(outputs(st, n)[1] == s2.high);
    assert(s2.high == rot16(s1.high).wrapping_add(s1.low));
    assert(s2.high.wrapping_sub(rot16(s1.high)) == s1.low);
    assert(GameRand { low: s2.high.wrapping_sub(rot16(s1.high)), high: s1.high } == s1);
    lemma_back_after_advance(st);
}

/// Recover the state from observed outputs. `out_k = m_high` after step k, and
/// `m_high_k = rotl(m_high_{k-1},16) + m_low_{k-1}`, so `m_low` falls out of two
/// consecutive outputs; we then step back one to get the pre-first-output state.
/// Verified by full reproduction, so `Some` is conclusive.
pub fn recover(obs: &[u32]) -> (r: Option<GameRand>)
    ensures
        obs.len() < 3 ==> r is None,
        r matches Some(st) ==> outputs(st, obs.len() as nat) == obs@,
        obs.len() >= 3 && reproducible(obs@) ==> r is Some,
        forall|st: GameRand| obs.len() >= 3 && #[trigger] outputs(st, obs.len() as nat) == obs@ ==> r == Some(st),
{
    if obs.len() < 3 {
        return None;
    }
    // state right after output 0: high = h[0], low = h[1] - rotl(h[0],16)
    let h0 = obs[0];
    let h1 = obs[1];
    let low0 = h1.wrapping_sub(rot16_exec(h0));
    let high0 = h0;
    let state = step_back(GameRand { low: low0, high: high0 });
    let regen = generate(state, obs.len());
    let mut same = true;
    let mut i: usize = 0;
    while i < obs.len()
        invariant
            regen@ == outputs(state, obs.len() as nat),
            i <= obs.len(),
            same == forall|j: int| 0 <= j < i ==> regen@[j] == obs@[j],
        decreases obs.len() - i,
    {
        if regen[i] != obs[i] {
            same = false;
        }
        i = i + 1;
    }
    proof {
        if reproducible(obs@) {
            let st = choose|st: GameRand| outputs(st, obs.len() as nat) == obs@;
            lemma_outputs_force_state(st, obs.len() as nat);
            assert(state == st);
        }
        if same {
            assert(regen@ =~= obs@);
        }
        assert forall|st: GameRand| #[trigger] outputs(st, obs.len() as nat) == obs@ implies same && state == st by {
            lemma_outputs_force_state(st, obs.len() as nat);
            assert(state == st);
            assert(regen@ =~= obs@);
        }
    }
    if same {
        Some(state)
    } else {
        None
    }
}

/// Step the GameRand state backward one advance (the advance is invertible).
fn step_back(s: GameRand) -> (r: GameRand)
    ensures
        r == back_spec(s),
{
    let low = s.low.wrapping_sub(s.high);
    let high = rot16_exec(s.high.wrapping_sub(low));
    GameRand { low, high }
}

/// A state that GameRand's seeding produces: `high ^ low == "IanB"`.
pub open spec fn is_seed_state(s: GameRand) -> bool {
    s.high ^ s.low == IANB
}

/// `st` reproduces `obs`, and `k` steps back from it is the first state that
/// seeding with `seed` produces.
pub open spec fn seed_found(obs: Seq<u32>, st: GameRand, seed: u32, k: nat) -> bool {
    &&& outputs(st, obs.len()) == obs
    &&& back(st, k) == seeded_spec(seed)
    &&& forall|j: nat| j < k ==> !is_seed_state(#[trigger] back(st, j))
}

/// Recover the original 32-bit seed Safari was given. GameRand seeds with
/// `m_low = seed ^ 0x49616E42`, `m_high = seed`, so `high ^ low == 0x49616E42`
/// exactly at seed time. We recover the running state, then step backward
/// until that invariant holds. Returns the seed and how many draws preceded the
/// first observed value, or `None` if not found within `max_back` steps.
pub fn recover_seed(obs: &[u32], max_back: usize) -> (r: Option<(u32, usize)>)
    ensures
        obs.len() < 3 || !reproducible(obs@) ==> r is None,
        r is Some ==> r.unwrap().1 < max_back && exists|st: GameRand|
            #[trigger] seed_found(obs@, st, r.unwrap().0, r.unwrap().1 as nat),
        r matches Some(res) ==> forall|st: GameRand|
            #[trigger] outputs(st, obs.len() as nat) == obs@ ==> seed_found(obs@, st, res.0, res.1 as nat),
        obs.len() >= 3 && reproducible(obs@) ==> (r is None <==> forall|st: GameRand, j: nat|
            outputs(st, obs.len() as nat) == obs@ && j < max_back ==> !is_seed_state(
                #[trigger] back(st, j),
            )),
{
    let st = match recover(obs) {
        Some(st) => st,
        None => return None,
    };
    let mut s = st;
    let mut k: usize = 0;
    while k < max_back
        invariant
            k <= max_back,
            obs.len() >= 3,
            outputs(st, obs.len() as nat) == obs@,
            s == back(st, k as nat),
            forall|j: nat| j < k ==> !is_seed_state(#[trigger] back(st, j)),
        decreases max_back - k,
    {
        if s.high ^ s.low == IANB {
            proof {
                lemma_xor_solve(s.high, s.low);
                assert(back(st, k as nat) == seeded_spec(s.high));
                assert(reproducible(obs@));
                assert(is_seed_state(back(st, k as nat)));
                assert(seed_found(obs@, st, s.high, k as nat));
            }
            let res = Some((s.high, k));
            proof {
                assert(seed_found(obs@, st, res.unwrap().0, res.unwrap().1 as nat));
                assert forall|st2: GameRand| #[trigger] outputs(st2, obs.len() as nat) == obs@ implies seed_found(
                    obs@,
                    st2,
                    res.unwrap().0,
                    res.unwrap().1 as nat,
                ) by {
                    lemma_outputs_force_state(st2, obs.len() as nat);
                    lemma_outputs_force_state(st, obs.len() as nat);
                }
            }
            return res;
        }
        s = step_back(s);
        k = k + 1;
    }
    proof {
        assert forall|st2: GameRand, j: nat|
            outputs(st2, obs.len() as nat) == obs@ && j < max_back implies !is_seed_state(
            #[trigger] back(st2, j),
        ) by {
            lemma_outputs_force_state(st2, obs.len() as nat);
            lemma_outputs_force_state(st, obs.len() as nat);
        }
    }
    None
}

} // verus!
