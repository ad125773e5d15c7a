//! Linear congruential generators — the family behind legacy JScript
//! (`Math.random()` in MSIE 6/7/8) and assorted older engines.
//!
//! A generic `state -> state * a + c (mod m)` step, with either a power-of-two
//! modulus (applied as a mask) or an arbitrary modulus (applied with `%`).
use vstd::prelude::*;

verus! {

/// `2^bits - 1`, saturating at `u64::MAX` for `bits >= 64`.
pub open spec fn mask_for_bits(bits: u32) -> u64 {
    if bits >= 64 {
        u64::MAX
    } else {
        ((1u64 << bits) - 1) as u64
    }
}

/// A configurable LCG: `state = (state * mult + incr) & mask`, or
/// `(state * mult + incr) % modulus` when `modulus` is non-zero (both products
/// and sums wrap modulo 2^64 first).
#[derive(Clone, Copy, Debug)]
pub struct Lcg {
    pub state: u64,
    pub mult: u64,
    pub incr: u64,
    /// Modulus mask. For a power-of-two modulus use `modulus - 1`.
    pub mask: u64,
    /// If non-zero, reduce modulo this instead of masking (for prime moduli).
    pub modulus: u64,
}

/// The state after one step from `l`.
pub open spec fn lcg_next(l: Lcg) -> u64 {
    let v = l.state.wrapping_mul(l.mult).wrapping_add(l.incr);
    if l.modulus != 0 {
        (v % l.modulus) as u64
    } else {
        v & l.mask
    }
}

impl Lcg {
    /// Power-of-two-modulus LCG (the common case).
    pub fn pow2(state: u64, mult: u64, incr: u64, bits: u32) -> (r: Self)
        ensures
            r.state == state,
            r.mult == mult,
            r.incr == incr,
            r.mask == mask_for_bits(bits),
            r.modulus == 0,
    {
        let mask = if bits >= 64 {
            u64::MAX
        } else {
            proof {
                assert(1u64 << bits >= 1) by (bit_vector)
                    requires
                        bits < 64,
                ;
            }
            (1u64 << bits) - 1
        };
        Self { state, mult, incr, mask, modulus: 0 }
    }

    /// Prime-modulus LCG.
    pub fn prime(state: u64, mult: u64, incr: u64, modulus: u64) -> (r: Self)
        ensures
            r.state == state,
            r.mult == mult,
            r.incr == incr,
            r.mask == u64::MAX,
            r.modulus == modulus,
    {
        Self { state, mult, incr, mask: u64::MAX, modulus }
    }

    /// Advance one step and return the new state.
    pub fn next_state(&mut self) -> (r: u64)
        ensures
            r == lcg_next(*old(self)),
            final(self).state == r,
            final(self).mult == old(self).mult,
            final(self).incr == old(self).incr,
            final(self).mask == old(self).mask,
            final(self).modulus == old(self).modulus,
    {
        let v = self.state.wrapping_mul(self.mult).wrapping_add(self.incr);
        self.state = if self.modulus != 0 {
            v % self.modulus
        } else {
            v & self.mask
        };
        self.state
    }
}

} // verus!
