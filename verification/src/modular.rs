//! Facts about arithmetic modulo 2^64 shared by the generators: wrapping
//! multiplication is associative, and multiplying by an odd constant is undone
//! by multiplying with its inverse (found by Newton iteration).
use vstd::prelude::*;
use vstd::arithmetic::div_mod::lemma_mul_mod_noop_left;
use vstd::arithmetic::div_mod::lemma_mul_mod_noop_right;
use vstd::arithmetic::div_mod::{
    lemma_add_mod_noop, lemma_fundamental_div_mod_converse, lemma_mod_mod,
    lemma_mod_multiples_vanish, lemma_mod_twice, lemma_small_mod,
};
use vstd::arithmetic::mul::{lemma_mul_is_associative, lemma_mul_is_commutative};
use vstd::arithmetic::power2::{lemma2_to64, lemma_pow2_adds, lemma_pow2_pos, lemma_pow2_strictly_increases, lemma_pow2_unfold, pow2};
use vstd::arithmetic::div_mod::{lemma_fundamental_div_mod, lemma_mod_multiples_basic};
use vstd::bits::{lemma_u64_shl_is_mul, lemma_u64_shr_is_div};

verus! {

/// One Newton round `x * (2 - a * x)` modulo 2^64.
pub open spec fn newton_step(a: u64, x: u64) -> u64 {
    x.wrapping_mul(2u64.wrapping_sub(a.wrapping_mul(x)))
}

/// `k` rounds of Newton's iteration `x <- x * (2 - a * x)` from `x = 1`,
/// all modulo 2^64. For odd `a`, six rounds give the inverse of `a`.
pub open spec fn newton(a: u64, k: nat) -> u64
    decreases k,
{
    if k == 0 {
        1
    } else {
        newton_step(a, newton(a, (k - 1) as nat))
    }
}

/// Wrapping multiplication is associative.
pub proof fn lemma_wmul_assoc(a: u64, b: u64, c: u64)
    ensures
        a.wrapping_mul(b).wrapping_mul(c) == a.wrapping_mul(b.wrapping_mul(c)),
{
    let m: int = 0x1_0000_0000_0000_0000;
    lemma_mul_mod_noop_left(a as int * b as int, c as int, m);
    lemma_mul_mod_noop_right(a as int, b as int * c as int, m);
    lemma_mul_is_associative(a as int, b as int, c as int);
}

/// Multiplying by `c` and then by an inverse of `c` is the identity.
pub proof fn lemma_wmul_cancel(a: u64, c: u64, ci: u64)
    requires
        c.wrapping_mul(ci) == 1,
    ensures
        a.wrapping_mul(c).wrapping_mul(ci) == a,
{
    lemma_wmul_assoc(a, c, ci);
}

/// Multiplication by an invertible `c` is injective.
pub proof fn lemma_wmul_injective(a: u64, b: u64, c: u64, ci: u64)
    requires
        c.wrapping_mul(ci) == 1,
        a.wrapping_mul(c) == b.wrapping_mul(c),
    ensures
        a == b,
{
    lemma_wmul_cancel(a, c, ci);
    lemma_wmul_cancel(b, c, ci);
}

/// The individual Newton rounds for the constants the generators invert.
proof fn lemma_newton_steps()
    by (bit_vector)
    ensures
        newton_step(0x8000_0001u64, 0x1u64) == 0xffff_ffff_8000_0001u64,
        newton_step(0x8000_0001u64, 0xffff_ffff_8000_0001u64) == 0x3fff_ffff_8000_0001u64,
        newton_step(0x8000_0001u64, 0x3fff_ffff_8000_0001u64) == 0x3fff_ffff_8000_0001u64,
        newton_step(0x8000_0001u64, 0x3fff_ffff_8000_0001u64) == 0x3fff_ffff_8000_0001u64,
        newton_step(0x8000_0001u64, 0x3fff_ffff_8000_0001u64) == 0x3fff_ffff_8000_0001u64,
        newton_step(0x8000_0001u64, 0x3fff_ffff_8000_0001u64) == 0x3fff_ffff_8000_0001u64,
        0x8000_0001u64.wrapping_mul(0x3fff_ffff_8000_0001u64) == 1,
        0x3fff_ffff_8000_0001u64.wrapping_mul(0x8000_0001u64) == 1,
        newton_step(0x15u64, 0x1u64) == 0xffff_ffff_ffff_ffedu64,
        newton_step(0x15u64, 0xffff_ffff_ffff_ffedu64) == 0xffff_ffff_ffff_e23du64,
        newton_step(0x15u64, 0xffff_ffff_ffff_e23du64) == 0xffff_ffff_b756_cf3du64,
        newton_step(0x15u64, 0xffff_ffff_b756_cf3du64) == 0x4ee8_43d2_3cf3_cf3du64,
        newton_step(0x15u64, 0x4ee8_43d2_3cf3_cf3du64) == 0xcf3c_f3cf_3cf3_cf3du64,
        newton_step(0x15u64, 0xcf3c_f3cf_3cf3_cf3du64) == 0xcf3c_f3cf_3cf3_cf3du64,
        0x15u64.wrapping_mul(0xcf3c_f3cf_3cf3_cf3du64) == 1,
        0xcf3c_f3cf_3cf3_cf3du64.wrapping_mul(0x15u64) == 1,
        newton_step(0x109u64, 0x1u64) == 0xffff_ffff_ffff_fef9u64,
        newton_step(0x109u64, 0xffff_ffff_ffff_fef9u64) == 0xffff_ffff_fee8_4d39u64,
        newton_step(0x109u64, 0xffff_ffff_fee8_4d39u64) == 0xfec3_aa84_e303_dd39u64,
        newton_step(0x109u64, 0xfec3_aa84_e303_dd39u64) == 0xa456_f08b_1c03_dd39u64,
        newton_step(0x109u64, 0xa456_f08b_1c03_dd39u64) == 0xd38f_f08b_1c03_dd39u64,
        newton_step(0x109u64, 0xd38f_f08b_1c03_dd39u64) == 0xd38f_f08b_1c03_dd39u64,
        0x109u64.wrapping_mul(0xd38f_f08b_1c03_dd39u64) == 1,
        0xd38f_f08b_1c03_dd39u64.wrapping_mul(0x109u64) == 1,
        newton_step(0x1f_ffffu64, 0x1u64) == 0xffff_ffff_ffe0_0003u64,
        newton_step(0x1f_ffffu64, 0xffff_ffff_ffe0_0003u64) == 0x8000_1bff_fde0_000fu64,
        newton_step(0x1f_ffffu64, 0x8000_1bff_fde0_000fu64) == 0x800f_fbff_9fe0_00ffu64,
        newton_step(0x1f_ffffu64, 0x800f_fbff_9fe0_00ffu64) == 0xdbff_fb1f_ffe0_ffffu64,
        newton_step(0x1f_ffffu64, 0xdbff_fb1f_ffe0_ffffu64) == 0x7e1f_fc00_ffdf_ffffu64,
        newton_step(0x1f_ffffu64, 0x7e1f_fc00_ffdf_ffffu64) == 0x7fff_fbff_ffdf_ffffu64,
        0x1f_ffffu64.wrapping_mul(0x7fff_fbff_ffdf_ffffu64) == 1,
        0x7fff_fbff_ffdf_ffffu64.wrapping_mul(0x1f_ffffu64) == 1,
        newton_step(0x5_deec_e66du64, 0x1u64) == 0xffff_fffa_2113_1995u64,
        newton_step(0x5_deec_e66du64, 0xffff_fffa_2113_1995u64) == 0xbcc2_17c6_dae7_fe65u64,
        newton_step(0x5_deec_e66du64, 0xbcc2_17c6_dae7_fe65u64) == 0x206b_df23_0406_1365u64,
        newton_step(0x5_deec_e66du64, 0x206b_df23_0406_1365u64) == 0xf4f5_efbb_5bcb_1365u64,
        newton_step(0x5_deec_e66du64, 0xf4f5_efbb_5bcb_1365u64) == 0x7b13_dfe0_5bcb_1365u64,
        newton_step(0x5_deec_e66du64, 0x7b13_dfe0_5bcb_1365u64) == 0x7b13_dfe0_5bcb_1365u64,
        0x5_deec_e66du64.wrapping_mul(0x7b13_dfe0_5bcb_1365u64) == 1,
        0x7b13_dfe0_5bcb_1365u64.wrapping_mul(0x5_deec_e66du64) == 1,
        newton_step(0x3_43fdu64, 0x1u64) == 0xffff_ffff_fffc_bc05u64,
        newton_step(0x3_43fdu64, 0xffff_ffff_fffc_bc05u64) == 0xffdd_2d2e_6215_dc55u64,
        newton_step(0x3_43fdu64, 0xffdd_2d2e_6215_dc55u64) == 0x805d_b72d_b05e_3155u64,
        newton_step(0x3_43fdu64, 0x805d_b72d_b05e_3155u64) == 0xa72e_4a24_b9b3_3155u64,
        newton_step(0x3_43fdu64, 0xa72e_4a24_b9b3_3155u64) == 0x3353_2b79_b9b3_3155u64,
        newton_step(0x3_43fdu64, 0x3353_2b79_b9b3_3155u64) == 0x3353_2b79_b9b3_3155u64,
        0x3_43fdu64.wrapping_mul(0x3353_2b79_b9b3_3155u64) == 1,
        0x3353_2b79_b9b3_3155u64.wrapping_mul(0x3_43fdu64) == 1,
{
}

/// Six Newton rounds invert `0x8000_0001u64` modulo 2^64.
pub proof fn lemma_newton_shl31()
    ensures
        newton(0x8000_0001u64, 6) == 0x3fff_ffff_8000_0001u64,
        0x8000_0001u64.wrapping_mul(0x3fff_ffff_8000_0001u64) == 1,
        0x3fff_ffff_8000_0001u64.wrapping_mul(0x8000_0001u64) == 1,
{
    lemma_newton_steps();
    assert(newton(0x8000_0001u64, 0) == 0x1u64);
    assert(newton(0x8000_0001u64, 1) == 0xffff_ffff_8000_0001u64);
    assert(newton(0x8000_0001u64, 2) == 0x3fff_ffff_8000_0001u64);
    assert(newton(0x8000_0001u64, 3) == 0x3fff_ffff_8000_0001u64);
    assert(newton(0x8000_0001u64, 4) == 0x3fff_ffff_8000_0001u64);
    assert(newton(0x8000_0001u64, 5) == 0x3fff_ffff_8000_0001u64);
    assert(newton(0x8000_0001u64, 6) == 0x3fff_ffff_8000_0001u64);
}

/// Six Newton rounds invert `0x15u64` modulo 2^64.
pub proof fn lemma_newton_21()
    ensures
        newton(0x15u64, 6) == 0xcf3c_f3cf_3cf3_cf3du64,
        0x15u64.wrapping_mul(0xcf3c_f3cf_3cf3_cf3du64) == 1,
        0xcf3c_f3cf_3cf3_cf3du64.wrapping_mul(0x15u64) == 1,
{
    lemma_newton_steps();
    assert(newton(0x15u64, 0) == 0x1u64);
    assert(newton(0x15u64, 1) == 0xffff_ffff_ffff_ffedu64);
    assert(newton(0x15u64, 2) == 0xffff_ffff_ffff_e23du64);
    assert(newton(0x15u64, 3) == 0xffff_ffff_b756_cf3du64);
    assert(newton(0x15u64, 4) == 0x4ee8_43d2_3cf3_cf3du64);
    assert(newton(0x15u64, 5) == 0xcf3c_f3cf_3cf3_cf3du64);
    assert(newton(0x15u64, 6) == 0xcf3c_f3cf_3cf3_cf3du64);
}

/// Six Newton rounds invert `0x109u64` modulo 2^64.
pub proof fn lemma_newton_265()
    ensures
        newton(0x109u64, 6) == 0xd38f_f08b_1c03_dd39u64,
        0x109u64.wrapping_mul(0xd38f_f08b_1c03_dd39u64) == 1,
        0xd38f_f08b_1c03_dd39u64.wrapping_mul(0x109u64) == 1,
{
    lemma_newton_steps();
    assert(newton(0x109u64, 0) == 0x1u64);
    assert(newton(0x109u64, 1) == 0xffff_ffff_ffff_fef9u64);
    assert(newton(0x109u64, 2) == 0xffff_ffff_fee8_4d39u64);
    assert(newton(0x109u64, 3) == 0xfec3_aa84_e303_dd39u64);
    assert(newton(0x109u64, 4) == 0xa456_f08b_1c03_dd39u64);
    assert(newton(0x109u64, 5) == 0xd38f_f08b_1c03_dd39u64);
    assert(newton(0x109u64, 6) == 0xd38f_f08b_1c03_dd39u64);
}

/// Six Newton rounds invert `0x1f_ffffu64` modulo 2^64.
pub proof fn lemma_newton_shl21()
    ensures
        newton(0x1f_ffffu64, 6) == 0x7fff_fbff_ffdf_ffffu64,
        0x1f_ffffu64.wrapping_mul(0x7fff_fbff_ffdf_ffffu64) == 1,
        0x7fff_fbff_ffdf_ffffu64.wrapping_mul(0x1f_ffffu64) == 1,
{
    lemma_newton_steps();
    assert(newton(0x1f_ffffu64, 0) == 0x1u64);
    assert(newton(0x1f_ffffu64, 1) == 0xffff_ffff_ffe0_0003u64);
    assert(newton(0x1f_ffffu64, 2) == 0x8000_1bff_fde0_000fu64);
    assert(newton(0x1f_ffffu64, 3) == 0x800f_fbff_9fe0_00ffu64);
    assert(newton(0x1f_ffffu64, 4) == 0xdbff_fb1f_ffe0_ffffu64);
    assert(newton(0x1f_ffffu64, 5) == 0x7e1f_fc00_ffdf_ffffu64);
    assert(newton(0x1f_ffffu64, 6) == 0x7fff_fbff_ffdf_ffffu64);
}

/// Six Newton rounds invert `0x5_deec_e66du64` modulo 2^64.
pub proof fn lemma_newton_drand48()
    ensures
        newton(0x5_deec_e66du64, 6) == 0x7b13_dfe0_5bcb_1365u64,
        0x5_deec_e66du64.wrapping_mul(0x7b13_dfe0_5bcb_1365u64) == 1,
        0x7b13_dfe0_5bcb_1365u64.wrapping_mul(0x5_deec_e66du64) == 1,
{
    lemma_newton_steps();
    assert(newton(0x5_deec_e66du64, 0) == 0x1u64);
    assert(newton(0x5_deec_e66du64, 1) == 0xffff_fffa_2113_1995u64);
    assert(newton(0x5_deec_e66du64, 2) == 0xbcc2_17c6_dae7_fe65u64);
    assert(newton(0x5_deec_e66du64, 3) == 0x206b_df23_0406_1365u64);
    assert(newton(0x5_deec_e66du64, 4) == 0xf4f5_efbb_5bcb_1365u64);
    assert(newton(0x5_deec_e66du64, 5) == 0x7b13_dfe0_5bcb_1365u64);
    assert(newton(0x5_deec_e66du64, 6) == 0x7b13_dfe0_5bcb_1365u64);
}

/// Six Newton rounds invert `0x3_43fdu64` modulo 2^64.
pub proof fn lemma_newton_msvcrt()
    ensures
        newton(0x3_43fdu64, 6) == 0x3353_2b79_b9b3_3155u64,
        0x3_43fdu64.wrapping_mul(0x3353_2b79_b9b3_3155u64) == 1,
        0x3353_2b79_b9b3_3155u64.wrapping_mul(0x3_43fdu64) == 1,
{
    lemma_newton_steps();
    assert(newton(0x3_43fdu64, 0) == 0x1u64);
    assert(newton(0x3_43fdu64, 1) == 0xffff_ffff_fffc_bc05u64);
    assert(newton(0x3_43fdu64, 2) == 0xffdd_2d2e_6215_dc55u64);
    assert(newton(0x3_43fdu64, 3) == 0x805d_b72d_b05e_3155u64);
    assert(newton(0x3_43fdu64, 4) == 0xa72e_4a24_b9b3_3155u64);
    assert(newton(0x3_43fdu64, 5) == 0x3353_2b79_b9b3_3155u64);
    assert(newton(0x3_43fdu64, 6) == 0x3353_2b79_b9b3_3155u64);
}


/// Masking to the low 48 or 32 bits is reduction modulo 2^48 or 2^32.
pub proof fn lemma_mask_is_mod(x: u64, mask: u64)
    requires
        mask == 0xffff_ffff_ffffu64 || mask == 0xffff_ffffu64,
    ensures
        x & mask == (x as int) % (mask + 1),
        x & mask <= mask,
{
    lemma_mask_is_mod_bv(x);
}

proof fn lemma_mask_is_mod_bv(x: u64)
    by (bit_vector)
    ensures
        x & 0xffff_ffff_ffffu64 == x % 0x1_0000_0000_0000u64,
        x & 0xffff_ffffu64 == x % 0x1_0000_0000u64,
        x & 0xffff_ffff_ffffu64 <= 0xffff_ffff_ffffu64,
        x & 0xffff_ffffu64 <= 0xffff_ffffu64,
{
}

/// Reducing modulo 2^64 first does not change a residue modulo a power of two
/// that divides it.
proof fn lemma_mod_pow2_nested(x: int, p: int)
    requires
        p == 0x1_0000_0000_0000 || p == 0x1_0000_0000,
        x >= 0,
    ensures
        (x % 0x1_0000_0000_0000_0000) % p == x % p,
{
    let q = 0x1_0000_0000_0000_0000int / p;
    assert(q * p == 0x1_0000_0000_0000_0000int);
    lemma_mod_mod(x, p, q);
    lemma_mul_is_commutative(p, q);
}

/// One masked LCG step as arithmetic modulo `p = mask + 1`.
pub open spec fn masked_step(s: u64, mult: u64, add: u64, mask: u64) -> u64 {
    s.wrapping_mul(mult).wrapping_add(add) & mask
}

/// The matching backward step with multiplier inverse `inv`.
pub open spec fn masked_prev(t: u64, add: u64, inv: u64, mask: u64) -> u64 {
    ((t + mask + 1 - add) as u64 & mask).wrapping_mul(inv) & mask
}

/// A masked step is `(s·mult + add) mod p`.
pub proof fn lemma_masked_step_mod(s: u64, mult: u64, add: u64, mask: u64)
    requires
        mask == 0xffff_ffff_ffffu64 || mask == 0xffff_ffffu64,
    ensures
        masked_step(s, mult, add, mask) == (s * mult + add) % (mask + 1),
{
    let p = (mask + 1) as int;
    let w = 0x1_0000_0000_0000_0000int;
    let v = s.wrapping_mul(mult).wrapping_add(add);
    lemma_mask_is_mod(v, mask);
    assert(v == ((s * mult) % w + add) % w);
    lemma_mod_pow2_nested((s * mult) % w + add, p);
    lemma_add_mod_noop((s * mult) % w, add as int, p);
    lemma_mod_pow2_nested(s * mult, p);
    lemma_add_mod_noop(s * mult, add as int, p);
    lemma_mod_twice(s * mult, p);
}

/// Stepping back with the multiplier's inverse undoes a masked step.
pub proof fn lemma_masked_prev_after_step(s: u64, mult: u64, add: u64, inv: u64, mask: u64)
    requires
        mask == 0xffff_ffff_ffffu64 || mask == 0xffff_ffffu64,
        add <= mask,
        (mult * inv) % (mask + 1) == 1,
    ensures
        masked_prev(masked_step(s, mult, add, mask), add, inv, mask) == s & mask,
{
    let p = (mask + 1) as int;
    let w = 0x1_0000_0000_0000_0000int;
    let t = masked_step(s, mult, add, mask);
    lemma_masked_step_mod(s, mult, add, mask);
    lemma_mask_is_mod(t, mask);
    let u = ((t + mask + 1 - add) as u64) & mask;
    lemma_mask_is_mod((t + mask + 1 - add) as u64, mask);
    // u == (s·mult) mod p
    assert(u == (s * mult) % p) by {
        lemma_add_mod_noop(s * mult, add as int, p);
        lemma_mod_twice(s * mult, p);
        let sm = (s * mult) % p;
        lemma_small_mod(add as nat, p as nat);
        assert(t == (sm + add) % p);
        if sm + add < p {
            lemma_small_mod((sm + add) as nat, p as nat);
            assert(t == sm + add);
            lemma_mod_multiples_vanish(1, sm, p);
        } else {
            assert(t == sm + add - p) by {
                lemma_fundamental_div_mod_converse(sm + add, p, 1, sm + add - p);
            }
            lemma_small_mod(sm as nat, p as nat);
        }
    }
    let r = u.wrapping_mul(inv) & mask;
    lemma_mask_is_mod(u.wrapping_mul(inv), mask);
    lemma_mod_pow2_nested(u * inv, p);
    assert(r == (u * inv) % p);
    lemma_mul_mod_noop_left(s * mult, inv as int, p);
    lemma_mul_is_associative(s as int, mult as int, inv as int);
    lemma_mul_mod_noop_right(s as int, mult * inv, p);
    lemma_mask_is_mod(s, mask);
}

/// A masked step undoes a step back.
pub proof fn lemma_masked_step_after_prev(t: u64, mult: u64, add: u64, inv: u64, mask: u64)
    requires
        mask == 0xffff_ffff_ffffu64 || mask == 0xffff_ffffu64,
        add <= mask,
        t <= mask,
        (inv * mult) % (mask + 1) == 1,
    ensures
        masked_step(masked_prev(t, add, inv, mask), mult, add, mask) == t,
{
    let p = (mask + 1) as int;
    let u = ((t + mask + 1 - add) as u64) & mask;
    lemma_mask_is_mod((t + mask + 1 - add) as u64, mask);
    let r = masked_prev(t, add, inv, mask);
    lemma_mask_is_mod(u.wrapping_mul(inv), mask);
    lemma_mod_pow2_nested(u * inv, p);
    assert(r == (u * inv) % p);
    lemma_masked_step_mod(r, mult, add, mask);
    lemma_mul_mod_noop_left(u * inv, mult as int, p);
    lemma_mul_is_associative(u as int, inv as int, mult as int);
    lemma_mul_mod_noop_right(u as int, inv * mult, p);
    assert((r * mult) % p == (u as int) % p);
    lemma_small_mod(u as nat, p as nat);
    lemma_add_mod_noop(r * mult, add as int, p);
    assert((u + add) % p == t) by {
        lemma_fundamental_div_mod_converse((t + p - add) as int, p, ((t + p - add) / p) as int, u as int);
        if t >= add {
            assert(u == t - add) by {
                lemma_fundamental_div_mod_converse((t + p - add) as int, p, 1, (t - add) as int);
            }
            lemma_small_mod(t as nat, p as nat);
        } else {
            assert(u == t + p - add) by {
                lemma_small_mod((t + p - add) as nat, p as nat);
            }
            lemma_fundamental_div_mod_converse((t + p) as int, p, 1, t as int);
        }
    }
}

/// Shifting right by `k` divides by 2^k.
pub proof fn lemma_shr_div(x: u64, k: u64)
    requires
        k < 64,
    ensures
        x >> k == x as nat / pow2(k as nat),
        pow2(k as nat) > 0,
{
    lemma_u64_shr_is_div(x, k);
    lemma_pow2_pos(k as nat);
}

/// Shifting left by `k` multiplies by 2^k when nothing is shifted out.
pub proof fn lemma_shl_mul(x: u64, k: u64)
    requires
        k < 64,
        x * pow2(k as nat) <= u64::MAX,
    ensures
        x << k == x * pow2(k as nat),
{
    lemma_u64_shl_is_mul(x, k);
}

/// The powers of two up to 2^64, by value.
pub proof fn lemma_powers()
    ensures
        pow2(11) == 0x800,
        pow2(12) == 0x1000,
        pow2(15) == 0x8000,
        pow2(16) == 0x1_0000,
        pow2(17) == 0x2_0000,
        pow2(21) == 0x20_0000,
        pow2(22) == 0x40_0000,
        pow2(26) == 0x400_0000,
        pow2(27) == 0x800_0000,
        pow2(31) == 0x8000_0000,
        pow2(32) == 0x1_0000_0000,
{
    lemma2_to64();
}

/// Or-ing a value below 2^k into a word shifted left by `k` is addition.
pub proof fn lemma_or_low(h: u64, x: u64, k: u64)
    by (bit_vector)
    requires
        k < 64,
        x < (1u64 << k),
    ensures
        (h << k) | x == (h << k) + x,
        (h << k) + x <= u64::MAX,
{
}

// ---- inverses modulo 2^b ------------------------------------------------------------

/// `2^b` as a machine word.
pub fn pow2_u128(b: u32) -> (r: u128)
    requires
        b <= 127,
    ensures
        r == pow2(b as nat),
{
    let mut r: u128 = 1;
    let mut i: u32 = 0;
    proof {
        lemma2_to64();
    }
    while i < b
        invariant
            i <= b <= 127,
            r == pow2(i as nat),
        decreases b - i,
    {
        proof {
            lemma_pow2_unfold((i + 1) as nat);
            lemma_pow2_strictly_increases((i + 1) as nat, 128);
            lemma_pow2_adds(64, 64);
            lemma2_to64();
            assert(pow2(64) == 0x1_0000_0000_0000_0000);
        }
        r = r * 2;
        i = i + 1;
    }
    r
}

/// One Newton round modulo `md = 2^b` doubles the low bits of `d·x` that read
/// 1: if `2^e` divides `d·x - 1`, then `2^min(2e, b)` divides `d·x' - 1`.
proof fn lemma_newton_round(d: int, x: int, t: int, x2: int, md: int, b: nat, e: nat, e2: nat)
    requires
        md == pow2(b),
        e <= b,
        e2 <= 2 * e,
        e2 <= b,
        (d * x - 1) % (pow2(e) as int) == 0,
        t == (2 + md - (d * x) % md) % md,
        x2 == (x * t) % md,
    ensures
        (d * x2 - 1) % (pow2(e2) as int) == 0,
{
    let p = pow2(e) as int;
    let p2 = pow2(e2) as int;
    lemma_pow2_pos(e);
    lemma_pow2_pos(e2);
    lemma_pow2_pos(b);
    let y = d * x;
    lemma_fundamental_div_mod(y - 1, p);
    let u = (y - 1) / p;
    lemma_fundamental_div_mod(y, md);
    let tp = 2 + md - y % md;
    lemma_fundamental_div_mod(tp, md);
    let v = 1 + y / md - tp / md;
    assert(t == 2 - y + md * v) by (nonlinear_arith)
        requires
            y == md * (y / md) + y % md,
            tp == 2 + md - y % md,
            tp == md * (tp / md) + tp % md,
            t == tp % md,
            v == 1 + y / md - tp / md,
    ;
    lemma_fundamental_div_mod(x * t, md);
    let w = (x * t) / md;
    assert(d * x2 == y * t - md * (d * w)) by (nonlinear_arith)
        requires
            x2 == x * t - md * w,
            y == d * x,
    ;
    assert(y * t == 2 * y - y * y + md * (y * v)) by (nonlinear_arith)
        requires
            t == 2 - y + md * v,
    ;
    assert((y - 1) * (y - 1) == y * y - 2 * y + 1) by (nonlinear_arith);
    assert(md * (y * v - d * w) == md * (y * v) - md * (d * w)) by (nonlinear_arith);
    assert(d * x2 - 1 == -((y - 1) * (y - 1)) + md * (y * v - d * w));
    lemma_pow2_adds(e2, (2 * e - e2) as nat);
    lemma_pow2_adds(e, e);
    lemma_pow2_adds(e2, (b - e2) as nat);
    let r2 = pow2((2 * e - e2) as nat) as int;
    let r1 = pow2((b - e2) as nat) as int;
    assert((y - 1) * (y - 1) == p2 * (r2 * u * u)) by (nonlinear_arith)
        requires
            y - 1 == p * u,
            p * p == p2 * r2,
    ;
    let q = -(r2 * u * u) + r1 * (y * v - d * w);
    assert(d * x2 - 1 == q * p2) by (nonlinear_arith)
        requires
            d * x2 - 1 == -((y - 1) * (y - 1)) + md * (y * v - d * w),
            (y - 1) * (y - 1) == p2 * (r2 * u * u),
            md == p2 * r1,
            q == -(r2 * u * u) + r1 * (y * v - d * w),
    ;
    lemma_mod_multiples_basic(q, p2);
}

/// The inverse of an odd `d` modulo `2^b`, by Newton's iteration
/// `x <- x·(2 - d·x) (mod 2^b)` from `x = 1`: each round doubles the low bits
/// of `d·x` that read 1, so six rounds reach any `b <= 63`.
pub fn inv_mod_pow2(d: u128, b: u32) -> (x: u128)
    requires
        1 <= b <= 63,
        d < pow2(b as nat),
        d % 2 == 1,
    ensures
        x < pow2(b as nat),
        (d * x) % (pow2(b as nat) as int) == 1,
{
    let md = pow2_u128(b);
    proof {
        lemma2_to64();
        vstd::arithmetic::power2::lemma2_to64_rest();
        if b < 63 {
            lemma_pow2_strictly_increases(b as nat, 63);
        }
        lemma_pow2_strictly_increases(0, b as nat);
        assert((d * 1 - 1) % 2 == 0);
    }
    let mut x: u128 = 1;
    let mut i: u32 = 0;
    let ghost mut e: nat = 1;
    while i < 6
        invariant
            1 <= b <= 63,
            md == pow2(b as nat),
            1 < md <= 0x8000_0000_0000_0000,
            d < md,
            x < md,
            i <= 6,
            1 <= e <= b,
            e == b || e >= pow2(i as nat),
            (d * x - 1) % (pow2(e) as int) == 0,
        decreases 6 - i,
    {
        assert(d * x < 0x4000_0000_0000_0000_0000_0000_0000_0000) by (nonlinear_arith)
            requires
                d < 0x8000_0000_0000_0000,
                x < 0x8000_0000_0000_0000,
        ;
        let y = d * x;
        let t = (2 + md - y % md) % md;
        assert(x * t < 0x4000_0000_0000_0000_0000_0000_0000_0000) by (nonlinear_arith)
            requires
                t < 0x8000_0000_0000_0000,
                x < 0x8000_0000_0000_0000,
        ;
        let x2 = (x * t) % md;
        let ghost e2: nat = if 2 * e <= b {
            2 * e
        } else {
            b as nat
        };
        proof {
            lemma_newton_round(d as int, x as int, t as int, x2 as int, md as int, b as nat, e, e2);
            lemma_pow2_unfold((i + 1) as nat);
        }
        x = x2;
        i = i + 1;
        proof {
            e = e2;
        }
    }
    proof {
        assert(e == b);
        lemma_fundamental_div_mod(d * x - 1, md as int);
        let q = (d * x - 1) / (md as int);
        assert((d * x) as int == q * md + 1) by (nonlinear_arith)
            requires
                d * x - 1 == md * q + (d * x - 1) % (md as int),
                (d * x - 1) % (md as int) == 0,
        ;
        lemma_fundamental_div_mod_converse((d * x) as int, md as int, q, 1);
    }
    x
}

} // verus!
