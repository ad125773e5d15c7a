//! Presto `Math.random()` — Opera 7–12 (Carakan engine).
//!
//! UNIQUE AMONG BROWSERS: Presto backs `Math.random()` with a **cryptographically
//! secure** RNG, not a fast PRNG. Every call consumes 64 bits of **SNOW 2.0**
//! stream-cipher keystream (`modules/libcrypto`), and the generator is
//! continuously reseeded at runtime with real entropy (UI events, message loop,
//! time, SSL, …), tracking an entropy counter up to 576 bits.
//!
//! Double conversion (`OpRandomGenerator::GetDouble`):
//! ```text
//! ui1 = keystream[0] - 1
//! ui2 = (keystream[1] - 1) & ~((1<<11) - 1)   // clear low 11 bits
//! double = ui1 / 2^32 + ui2 / 2^64            // 53-bit, in (0,1)
//! ```
//! (The `-1` keeps the result strictly below 1.0; the low 11 bits of the second
//! word are masked because they fall below double precision.) The sum is exact,
//! so the double is `(ui1 · 2^21 + ui2 / 2^11) / 2^53`, on the 2⁻⁵³ grid.
//!
//! RECOVERY IS INFEASIBLE BY DESIGN. There is no low-entropy state to recover:
//! predicting outputs would require breaking SNOW 2.0, and even then the
//! continuous entropy injection defeats state reconstruction from outputs. So
//! unlike every other engine here, Presto's `Math.random()` is genuinely
//! unpredictable — only the forward conversion is modelled.
use vstd::prelude::*;

verus! {

/// The numerator over 2^53 of the double made from two keystream words.
pub open spec fn numerator(keystream0: u32, keystream1: u32) -> u64 {
    (keystream0.wrapping_sub(1) * 0x20_0000 + keystream1.wrapping_sub(1) / 0x800) as u64
}

/// The forward double conversion from two 32-bit keystream words, as the
/// numerator over 2^53; the keystream itself comes from SNOW 2.0 and cannot be
/// predicted from outputs.
pub fn to_double(keystream0: u32, keystream1: u32) -> (r: u64)
    ensures
        r == numerator(keystream0, keystream1),
        r < 0x20_0000_0000_0000,
{
    let ui1 = keystream0.wrapping_sub(1) as u64;
    let ui2 = keystream1.wrapping_sub(1) as u64;
    ui1 * 0x20_0000 + ui2 / 0x800
}

} // verus!
