//! xorshift128+ — the core generator behind V8 (Chrome/Edge/Node), SpiderMonkey
//! (Firefox) and JavaScriptCore (Safari) `Math.random()`.
//!
//! All three engines share the *same* state transition; they differ only in how
//! the 128-bit state is folded into an output. Those conversions live in the
//! `engines` module, not here.
//!
//! The transition is a bijection on the 128-bit state, which is what makes
//! prediction practical: once the state is recovered from a handful of observed
//! outputs we can step forwards to predict *and* backwards to reconstruct earlier
//! draws (V8, in particular, serves its cache in reverse).
use vstd::prelude::*;

verus! {

/// Bits `0..i` set (all bits for `i >= 64`).
pub open spec fn low_mask(i: u64) -> u64 {
    !(0xffff_ffff_ffff_ffffu64 << i)
}

/// Bits `i..64` set (no bits for `i >= 64`).
pub open spec fn high_mask(i: u64) -> u64 {
    0xffff_ffff_ffff_ffffu64 << i
}

/// The nonlinear-free half of the step: `t = a ^ (a << 23); t ^ (t >> 17)`.
pub open spec fn scramble(a: u64) -> u64 {
    let t = a ^ (a << 23u64);
    t ^ (t >> 17u64)
}

/// The new `s1` produced from the old lanes `(a, b)` by one step.
pub open spec fn mix(a: u64, b: u64) -> u64 {
    scramble(a) ^ b ^ (b >> 26u64)
}

/// The 128-bit xorshift128+ state, as two 64-bit lanes.
#[derive(Clone, Copy, Debug, PartialEq, Eq)]
pub struct XorShift128Plus {
    pub s0: u64,
    pub s1: u64,
}

/// The unique `x` with `x ^ (x << s) == y` (for `0 < s < 64`).
pub open spec fn unshl(y: u64, s: u64) -> u64 {
    choose|x: u64| xor_shl(x, s) == y
}

/// The unique `x` with `x ^ (x >> s) == y` (for `0 < s < 64`).
pub open spec fn unshr(y: u64, s: u64) -> u64 {
    choose|x: u64| xor_shr(x, s) == y
}

/// One backward step on a state value: the state whose successor is `s`.
pub open spec fn prev_spec(s: XorShift128Plus) -> XorShift128Plus {
    XorShift128Plus {
        s0: unshl(unshr(s.s1 ^ s.s0 ^ (s.s0 >> 26u64), 17), 23),
        s1: s.s0,
    }
}

/// One forward step on a state value: `(s0, s1) -> (s1, mix(s0, s1))`.
pub open spec fn step_spec(s: XorShift128Plus) -> XorShift128Plus {
    XorShift128Plus { s0: s.s1, s1: mix(s.s0, s.s1) }
}

/// `k` forward steps.
pub open spec fn iterate(s: XorShift128Plus, k: nat) -> XorShift128Plus
    decreases k,
{
    if k == 0 {
        s
    } else {
        step_spec(iterate(s, (k - 1) as nat))
    }
}

/// `a ^ (a << 23)` as a function of the pre-image: the left xorshift used by the step.
pub open spec fn xor_shl(a: u64, s: u64) -> u64 {
    a ^ (a << s)
}

/// `a ^ (a >> s)`.
pub open spec fn xor_shr(a: u64, s: u64) -> u64 {
    a ^ (a >> s)
}

proof fn lemma_lshift_step(x: u64, y: u64, s: u64, i: u64, bit: u64)
    by (bit_vector)
    requires
        0 < s < 64,
        i < 64,
        x & !low_mask(i) == 0,
        (x ^ (x << s)) & low_mask(i) == y & low_mask(i),
        bit == (if i < s {
            (y >> i) & 1
        } else {
            ((y >> i) & 1) ^ ((x >> ((i - s) as u64)) & 1)
        }),
    ensures
        (x | (bit << i)) & !low_mask((i + 1) as u64) == 0,
        ((x | (bit << i)) ^ ((x | (bit << i)) << s)) & low_mask((i + 1) as u64) == y & low_mask(
            (i + 1) as u64,
        ),
{
}

proof fn lemma_copy_step(x: u64, y: u64, s: u64, i: u64, bit: u64)
    by (bit_vector)
    requires
        i < 64,
        s == 0 || s >= 64,
        x == y & low_mask(i),
        bit == (if i < s {
            (y >> i) & 1
        } else {
            ((y >> i) & 1) ^ ((x >> ((i - s) as u64)) & 1)
        }),
    ensures
        (x | (bit << i)) == y & low_mask((i + 1) as u64),
{
}

proof fn lemma_rshift_step(x: u64, y: u64, s: u64, i: u64, bit: u64)
    by (bit_vector)
    requires
        0 < s < 64,
        i < 64,
        x & !high_mask((i + 1) as u64) == 0,
        (x ^ (x >> s)) & high_mask((i + 1) as u64) == y & high_mask((i + 1) as u64),
        bit == (if i + s >= 64 {
            (y >> i) & 1
        } else {
            ((y >> i) & 1) ^ ((x >> ((i + s) as u64)) & 1)
        }),
    ensures
        (x | (bit << i)) & !high_mask(i) == 0,
        ((x | (bit << i)) ^ ((x | (bit << i)) >> s)) & high_mask(i) == y & high_mask(i),
{
}

proof fn lemma_copy_step_high(x: u64, y: u64, s: u64, i: u64, bit: u64)
    by (bit_vector)
    requires
        i < 64,
        s == 0 || s >= 64,
        x == y & high_mask((i + 1) as u64),
        bit == (if i + s >= 64 {
            (y >> i) & 1
        } else {
            ((y >> i) & 1) ^ ((x >> ((i + s) as u64)) & 1)
        }),
    ensures
        (x | (bit << i)) == y & high_mask(i),
{
}

proof fn lemma_masks_ends()
    by (bit_vector)
    ensures
        low_mask(0) == 0,
        low_mask(64) == 0xffff_ffff_ffff_ffffu64,
        high_mask(64) == 0,
        high_mask(0) == 0xffff_ffff_ffff_ffffu64,
        forall|v: u64| #[trigger] (v & 0xffff_ffff_ffff_ffffu64) == v,
        forall|v: u64| #[trigger] (v & 0u64) == 0,
{
}

proof fn lemma_shl_fixpoint_step(d: u64, s: u64, i: u64)
    by (bit_vector)
    requires
        0 < s < 64,
        i < 64,
        d == d << s,
        d & low_mask(i) == 0,
    ensures
        d & low_mask((i + 1) as u64) == 0,
{
}

proof fn lemma_shr_fixpoint_step(d: u64, s: u64, i: u64)
    by (bit_vector)
    requires
        0 < s < 64,
        i < 64,
        d == d >> s,
        d & high_mask((i + 1) as u64) == 0,
    ensures
        d & high_mask(i) == 0,
{
}

proof fn lemma_shl_fixpoint_prefix(d: u64, s: u64, i: u64)
    requires
        0 < s < 64,
        i <= 64,
        d == d << s,
    ensures
        d & low_mask(i) == 0,
    decreases i,
{
    if i == 0 {
        lemma_masks_ends();
    } else {
        lemma_shl_fixpoint_prefix(d, s, (i - 1) as u64);
        lemma_shl_fixpoint_step(d, s, (i - 1) as u64);
    }
}

proof fn lemma_shr_fixpoint_suffix(d: u64, s: u64, i: u64)
    requires
        0 < s < 64,
        i <= 64,
        d == d >> s,
    ensures
        d & high_mask(i) == 0,
    decreases 64 - i,
{
    if i == 64 {
        lemma_masks_ends();
    } else {
        lemma_shr_fixpoint_suffix(d, s, (i + 1) as u64);
        lemma_shr_fixpoint_step(d, s, i);
    }
}

proof fn lemma_xor_diff(a: u64, b: u64, s: u64)
    by (bit_vector)
    requires
        s < 64,
    ensures
        (a ^ (a << s)) == (b ^ (b << s)) ==> (a ^ b) == ((a ^ b) << s),
        (a ^ (a >> s)) == (b ^ (b >> s)) ==> (a ^ b) == ((a ^ b) >> s),
        (a ^ b) == 0 ==> a == b,
{
}

/// `a ^ (a << s)` is injective for `0 < s < 64`: the left xorshift loses nothing.
pub proof fn lemma_xor_shl_injective(a: u64, b: u64, s: u64)
    requires
        0 < s < 64,
        xor_shl(a, s) == xor_shl(b, s),
    ensures
        a == b,
{
    lemma_xor_diff(a, b, s);
    lemma_shl_fixpoint_prefix(a ^ b, s, 64);
    lemma_masks_ends();
}

/// `a ^ (a >> s)` is injective for `0 < s < 64`.
pub proof fn lemma_xor_shr_injective(a: u64, b: u64, s: u64)
    requires
        0 < s < 64,
        xor_shr(a, s) == xor_shr(b, s),
    ensures
        a == b,
{
    lemma_xor_diff(a, b, s);
    lemma_shr_fixpoint_suffix(a ^ b, s, 0);
    lemma_masks_ends();
}

/// Invert `y = x ^ (x << shift)`, reconstructing `x` from the low bits up.
/// The low `shift` bits of `x` equal the low bits of `y`; each higher bit is
/// `x_i = y_i ^ x_{i-shift}`. A shift of 0 or of 64 and more leaves `y` as is.
pub fn undo_lshift(y: u64, shift: u32) -> (x: u64)
    ensures
        0 < shift < 64 ==> xor_shl(x, shift as u64) == y,
        0 < shift < 64 ==> forall|v: u64| #[trigger] xor_shl(v, shift as u64) == y ==> v == x,
        0 < shift < 64 ==> x == unshl(y, shift as u64),
        (shift == 0 || shift >= 64) ==> x == y,
{
    let mut x: u64 = 0;
    let mut i: u32 = 0;
    proof {
        lemma_masks_ends();
    }
    while i < 64
        invariant
            i <= 64,
            x & !low_mask(i as u64) == 0,
            0 < shift < 64 ==> (x ^ (x << (shift as u64))) & low_mask(i as u64) == y & low_mask(
                i as u64,
            ),
            (shift == 0 || shift >= 64) ==> x == y & low_mask(i as u64),
        decreases 64 - i,
    {
        let bit = if i < shift {
            (y >> i) & 1
        } else {
            ((y >> i) & 1) ^ ((x >> (i - shift)) & 1)
        };
        proof {
            if 0 < shift < 64 {
                lemma_lshift_step(x, y, shift as u64, i as u64, bit);
            } else {
                lemma_copy_step(x, y, shift as u64, i as u64, bit);
                assert((x | (bit << (i as u64))) & !low_mask((i + 1) as u64) == 0) by (bit_vector)
                    requires
                        x | (bit << (i as u64)) == y & low_mask((i + 1) as u64),
                ;
            }
        }
        x = x | (bit << i);
        i = i + 1;
    }
    proof {
        if 0 < shift < 64 {
            assert forall|v: u64| #[trigger] xor_shl(v, shift as u64) == y implies v == x by {
                lemma_xor_shl_injective(v, x, shift as u64);
            }
            assert(xor_shl(x, shift as u64) == y);
            lemma_xor_shl_injective(unshl(y, shift as u64), x, shift as u64);
        }
    }
    x
}

/// Invert `y = x ^ (x >> shift)`, reconstructing `x` from the high bits down.
/// A shift of 0 or of 64 and more leaves `y` as is.
pub fn undo_rshift(y: u64, shift: u32) -> (x: u64)
    ensures
        0 < shift < 64 ==> xor_shr(x, shift as u64) == y,
        0 < shift < 64 ==> forall|v: u64| #[trigger] xor_shr(v, shift as u64) == y ==> v == x,
        0 < shift < 64 ==> x == unshr(y, shift as u64),
        (shift == 0 || shift >= 64) ==> x == y,
{
    let mut x: u64 = 0;
    let mut i: u32 = 64;
    proof {
        lemma_masks_ends();
    }
    while i > 0
        invariant
            i <= 64,
            x & !high_mask(i as u64) == 0,
            0 < shift < 64 ==> (x ^ (x >> (shift as u64))) & high_mask(i as u64) == y & high_mask(
                i as u64,
            ),
            (shift == 0 || shift >= 64) ==> x == y & high_mask(i as u64),
        decreases i,
    {
        i = i - 1;
        let hi: u64 = i as u64 + shift as u64;
        let bit = if hi >= 64 {
            (y >> i) & 1
        } else {
            ((y >> i) & 1) ^ ((x >> hi) & 1)
        };
        proof {
            if 0 < shift < 64 {
                lemma_rshift_step(x, y, shift as u64, i as u64, bit);
            } else {
                lemma_copy_step_high(x, y, shift as u64, i as u64, bit);
                assert((x | (bit << (i as u64))) & !high_mask(i as u64) == 0) by (bit_vector)
                    requires
                        x | (bit << (i as u64)) == y & high_mask(i as u64),
                ;
            }
        }
        x = x | (bit << i);
    }
    proof {
        if 0 < shift < 64 {
            assert forall|v: u64| #[trigger] xor_shr(v, shift as u64) == y implies v == x by {
                lemma_xor_shr_injective(v, x, shift as u64);
            }
            assert(xor_shr(x, shift as u64) == y);
            lemma_xor_shr_injective(unshr(y, shift as u64), x, shift as u64);
        }
    }
    x
}

impl XorShift128Plus {
    pub fn new(s0: u64, s1: u64) -> (r: Self)
        ensures
            r.s0 == s0,
            r.s1 == s1,
    {
        Self { s0, s1 }
    }

    /// Advance the state one step. Mirrors V8's `XorShift128`
    /// (`base/utils/random-number-generator.h`) exactly; SpiderMonkey and JSC
    /// use the identical recurrence.
    pub fn next_state(&mut self)
        ensures
            *final(self) == step_spec(*old(self)),
    {
        let mut s1 = self.s0;
        let s0 = self.s1;
        self.s0 = s0;
        s1 ^= s1 << 23;
        s1 ^= s1 >> 17;
        s1 ^= s0;
        s1 ^= s0 >> 26;
        self.s1 = s1;
    }

    /// Invert one step: given the current state, recover the state that produced
    /// it. Useful for walking back through a V8 reverse-served cache.
    pub fn prev_state(&mut self)
        ensures
            step_spec(*final(self)) == *old(self),
            *final(self) == prev_spec(*old(self)),
    {
        // Forward step set: new_s0 = old_s1, new_s1 = mix(old_s0, old_s1).
        // So old_s1 == current s0. We then undo the scramble to recover old_s0.
        let old_s1 = self.s0;
        let s0 = old_s1;
        let cur_s1 = self.s1;
        let mut x = self.s1;
        x ^= s0 >> 26;
        x ^= s0;
        let w = x;
        x = undo_rshift(x, 17);
        let u = x;
        x = undo_lshift(x, 23);
        proof {
            assert(scramble(x) == w);
            assert((cur_s1 ^ s0 ^ (s0 >> 26u64)) == w) by (bit_vector)
                requires
                    w == cur_s1 ^ (s0 >> 26u64) ^ s0,
            ;
            assert(mix(x, s0) == cur_s1) by {
                assert((w ^ s0 ^ (s0 >> 26u64)) == cur_s1) by (bit_vector)
                    requires
                        w == cur_s1 ^ (s0 >> 26u64) ^ s0,
                ;
            }
        }
        self.s1 = old_s1;
        self.s0 = x;
    }

    /// The pre-conversion 64-bit output most engines start from: `s0 + s1`
    /// (wrapping). V8 reads `s0` directly instead; SpiderMonkey and JSC use the sum.
    pub fn sum(&self) -> (r: u64)
        ensures
            r == self.s0.wrapping_add(self.s1),
    {
        self.s0.wrapping_add(self.s1)
    }
}

/// Stepping back undoes stepping forward: the state before a step is the only
/// state that steps to its successor.
pub proof fn lemma_step_injective(a: XorShift128Plus, b: XorShift128Plus)
    requires
        step_spec(a) == step_spec(b),
    ensures
        a == b,
{
    assert(a.s1 == b.s1);
    let t = a.s1;
    assert(scramble(a.s0) == scramble(b.s0)) by {
        assert(mix(a.s0, t) == mix(b.s0, t));
        let sa = scramble(a.s0);
        let sb = scramble(b.s0);
        assert(sa == sb) by (bit_vector)
            requires
                sa ^ t ^ (t >> 26u64) == sb ^ t ^ (t >> 26u64),
        ;
    }
    let ta = a.s0 ^ (a.s0 << 23u64);
    let tb = b.s0 ^ (b.s0 << 23u64);
    lemma_xor_shr_injective(ta, tb, 17);
    lemma_xor_shl_injective(a.s0, b.s0, 23);
}

/// Stepping forward and then back returns the original state.
pub proof fn lemma_prev_after_next(s: XorShift128Plus)
    ensures
        prev_spec(step_spec(s)) == s,
{
    let n = step_spec(s);
    let p = prev_spec(n);
    lemma_next_after_prev(n);
    lemma_step_injective(p, s);
}

/// Stepping back and then forward returns the original state: every state has
/// a predecessor, so the step is a bijection.
pub proof fn lemma_next_after_prev(s: XorShift128Plus)
    ensures
        step_spec(prev_spec(s)) == s,
{
    let w = s.s1 ^ s.s0 ^ (s.s0 >> 26u64);
    // Existence of the pre-images, from the bitwise reconstructions.
    let u = unshr_witness(w);
    assert(xor_shr(u, 17) == w);
    let x = unshl_witness(unshr(w, 17));
    assert(xor_shl(x, 23) == unshr(w, 17));
    let p = prev_spec(s);
    assert(p.s0 == x);
    assert(scramble(x) == w);
    assert(mix(x, s.s0) == s.s1) by {
        let t = s.s0;
        let v = s.s1;
        assert((w ^ t ^ (t >> 26u64)) == v) by (bit_vector)
            requires
                w == v ^ t ^ (t >> 26u64),
        ;
    }
}

/// A pre-image of `a ^ (a >> 17)` exists for every word.
proof fn unshr_witness(w: u64) -> (u: u64)
    ensures
        xor_shr(u, 17) == w,
        xor_shr(unshr(w, 17), 17) == w,
        unshr(w, 17) == u,
{
    let u = spec_undo_rshift_17(w);
    lemma_spec_undo_rshift_17(w);
    lemma_xor_shr_injective(unshr(w, 17), u, 17);
    u
}

/// A pre-image of `a ^ (a << 23)` exists for every word.
proof fn unshl_witness(w: u64) -> (u: u64)
    ensures
        xor_shl(u, 23) == w,
        xor_shl(unshl(w, 23), 23) == w,
        unshl(w, 23) == u,
{
    let u = spec_undo_lshift_23(w);
    lemma_spec_undo_lshift_23(w);
    lemma_xor_shl_injective(unshl(w, 23), u, 23);
    u
}

/// Closed-form inverse of `a ^ (a >> 17)`: `y ^ (y >> 17) ^ (y >> 34) ^ (y >> 51)`.
spec fn spec_undo_rshift_17(y: u64) -> u64 {
    y ^ (y >> 17u64) ^ (y >> 34u64) ^ (y >> 51u64)
}

/// Closed-form inverse of `a ^ (a << 23)`: `y ^ (y << 23) ^ (y << 46)`.
spec fn spec_undo_lshift_23(y: u64) -> u64 {
    y ^ (y << 23u64) ^ (y << 46u64)
}

proof fn lemma_spec_undo_rshift_17(y: u64)
    by (bit_vector)
    ensures
        xor_shr(spec_undo_rshift_17(y), 17) == y,
{
}

proof fn lemma_spec_undo_lshift_23(y: u64)
    by (bit_vector)
    ensures
        xor_shl(spec_undo_lshift_23(y), 23) == y,
{
}

} // verus!
