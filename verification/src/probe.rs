//! Structure probes: tests on a capture's numerators that tell a generator's
//! family before any model fits — the modulus a full-state LCG betrays through
//! its window determinants, the bit statistics of the values — and the search
//! for the wall-clock `srand` seed behind a recovered `rand()` state.
use vstd::prelude::*;
use crate::engines::v8_libc;
use crate::modular::{inv_mod_pow2, lemma_shl_mul, pow2_u128};
use vstd::arithmetic::power2::{lemma2_to64, lemma_pow2_pos, lemma_pow2_strictly_increases, pow2};
use vstd::arithmetic::div_mod::{lemma_fundamental_div_mod, lemma_fundamental_div_mod_converse, lemma_mod_multiples_basic};

verus! {

// ---- the modulus of a full-state LCG ---------------------------------------------

/// Greatest common divisor, by Euclid's algorithm (`gcd(a, 0) == a`).
pub open spec fn gcd(a: nat, b: nat) -> nat
    decreases b,
{
    if b == 0 {
        a
    } else {
        gcd(b, a % b)
    }
}

/// The absolute value.
pub open spec fn abs(x: int) -> nat {
    if x < 0 {
        (-x) as nat
    } else {
        x as nat
    }
}

/// The determinant of the window at `k` (values `k - 1 ..= k + 2`): for a
/// full-state LCG `N' = a·N + c (mod m)` it is `0 (mod m)`, since each
/// difference is `a` times the one before.
pub open spec fn delta(n: Seq<u64>, k: int) -> int {
    (n[k] - n[k - 1]) * (n[k + 2] - n[k + 1]) - (n[k + 1] - n[k]) * (n[k + 1] - n[k])
}

/// All four values of the window at `k` lie below `half` (values under 1/2,
/// which the double conversion keeps exact).
pub open spec fn exact_window(n: Seq<u64>, half: u64, k: int) -> bool {
    n[k - 1] < half && n[k] < half && n[k + 1] < half && n[k + 2] < half
}

/// The gcd of the determinants of the exact windows at `1 .. k`.
pub open spec fn delta_gcd_upto(n: Seq<u64>, half: u64, k: int) -> nat
    decreases k,
{
    if k <= 1 {
        0
    } else {
        let g = delta_gcd_upto(n, half, k - 1);
        if exact_window(n, half, k - 1) {
            gcd(g, abs(delta(n, k - 1)))
        } else {
            g
        }
    }
}

/// How many of the windows at `1 .. k` are exact.
pub open spec fn windows_used(n: Seq<u64>, half: u64, k: int) -> nat
    decreases k,
{
    if k <= 1 {
        0
    } else {
        windows_used(n, half, k - 1) + if exact_window(n, half, k - 1) {
            1nat
        } else {
            0nat
        }
    }
}

fn gcd_exec(a: u128, b: u128) -> (r: u128)
    ensures
        r == gcd(a as nat, b as nat),
{
    let mut x = a;
    let mut y = b;
    while y != 0
        invariant
            gcd(x as nat, y as nat) == gcd(a as nat, b as nat),
        decreases y,
    {
        let t = x % y;
        x = y;
        y = t;
    }
    x
}

/// The gcd of the determinants of every exact window (all four values below
/// `half`) of the capture, and how many windows were exact. For a full-state
/// LCG the modulus divides it (see [`lemma_lcg_modulus_divides`]), so over many
/// windows it is the modulus.
pub fn delta_gcd(n: &[u64], half: u64) -> (r: (u128, usize))
    requires
        n.len() >= 2,
        forall|i: int| 0 <= i < n.len() ==> n[i] < 0x4000_0000_0000_0000,
    ensures
        r.0 == delta_gcd_upto(n@, half, n.len() - 2),
        r.1 == windows_used(n@, half, n.len() - 2),
{
    let mut g: u128 = 0;
    let mut used: usize = 0;
    let mut k: usize = 1;
    let end = n.len() - 2;
    while k < end
        invariant
            end == n.len() - 2,
            1 <= k,
            k <= end || k == 1,
            used < k,
            forall|i: int| 0 <= i < n.len() ==> n[i] < 0x4000_0000_0000_0000,
            g == delta_gcd_upto(n@, half, k as int),
            used == windows_used(n@, half, k as int),
        decreases end - k,
    {
        if n[k - 1] < half && n[k] < half && n[k + 1] < half && n[k + 2] < half {
            let d0: i128 = n[k] as i128 - n[k - 1] as i128;
            let d1: i128 = n[k + 1] as i128 - n[k] as i128;
            let d2: i128 = n[k + 2] as i128 - n[k + 1] as i128;
            let b: i128 = 0x4000_0000_0000_0000;
            assert(-b * b < d0 * d2 < b * b && -b * b < d1 * d1 < b * b) by (nonlinear_arith)
                requires
                    -b < d0 < b,
                    -b < d1 < b,
                    -b < d2 < b,
                    b == 0x4000_0000_0000_0000,
            ;
            let d: i128 = d0 * d2 - d1 * d1;
            let ad: u128 = if d < 0 {
                (-d) as u128
            } else {
                d as u128
            };
            assert(ad == abs(delta(n@, k as int)));
            g = gcd_exec(g, ad);
            used = used + 1;
        }
        k = k + 1;
    }
    (g, used)
}

/// Values `i` and `i + 1` are one step of the LCG `N' = a·N + c (mod m)`.
pub open spec fn lcg_pair(n: Seq<u64>, m: int, a: int, c: int, i: int) -> bool {
    (n[i + 1] - a * n[i] - c) % m == 0
}

/// Every window determinant of a full-state LCG `N' = a·N + c (mod m)` is a
/// multiple of `m`.
proof fn lemma_delta_multiple(n: Seq<u64>, m: int, a: int, c: int, k: int)
    requires
        m > 0,
        1 <= k,
        k + 2 < n.len(),
        forall|i: int| 0 <= i < n.len() - 1 ==> #[trigger] lcg_pair(n, m, a, c, i),
    ensures
        delta(n, k) % m == 0,
        abs(delta(n, k)) as int % m == 0,
{
    let e0 = n[k] - a * n[k - 1] - c;
    let e1 = n[k + 1] - a * n[k] - c;
    let e2 = n[k + 2] - a * n[k + 1] - c;
    assert(e0 % m == 0 && e1 % m == 0 && e2 % m == 0) by {
        assert(lcg_pair(n, m, a, c, k - 1) && lcg_pair(n, m, a, c, k) && lcg_pair(n, m, a, c, k + 1));
    }
    lemma_fundamental_div_mod(e0, m);
    lemma_fundamental_div_mod(e1, m);
    lemma_fundamental_div_mod(e2, m);
    let (t0, t1, t2) = (e0 / m, e1 / m, e2 / m);
    let (x0, x1, x2, x3) = (n[k - 1] as int, n[k] as int, n[k + 1] as int, n[k + 2] as int);
    let d0 = x1 - x0;
    let d1 = x2 - x1;
    let d2 = x3 - x2;
    let (u1, u2) = (t1 - t0, t2 - t1);
    assert(d1 == a * d0 + m * u1) by (nonlinear_arith)
        requires
            x1 == a * x0 + c + m * t0,
            x2 == a * x1 + c + m * t1,
            d0 == x1 - x0,
            d1 == x2 - x1,
            u1 == t1 - t0,
    ;
    assert(d2 == a * d1 + m * u2) by (nonlinear_arith)
        requires
            x2 == a * x1 + c + m * t1,
            x3 == a * x2 + c + m * t2,
            d1 == x2 - x1,
            d2 == x3 - x2,
            u2 == t2 - t1,
    ;
    let q = d0 * u2 - d1 * u1;
    assert(d0 * d2 - d1 * d1 == q * m) by (nonlinear_arith)
        requires
            d2 == a * d1 + m * u2,
            d1 == a * d0 + m * u1,
            q == d0 * u2 - d1 * u1,
    ;
    assert(delta(n, k) == d0 * d2 - d1 * d1);
    lemma_mod_multiples_basic(q, m);
    lemma_mod_multiples_basic(-q, m);
    assert(-(q * m) == (-q) * m) by (nonlinear_arith);
}

/// A common divisor of `a` and `b` divides their gcd.
proof fn lemma_gcd_divisible(a: nat, b: nat, m: int)
    requires
        m > 0,
        a as int % m == 0,
        b as int % m == 0,
    ensures
        gcd(a, b) as int % m == 0,
    decreases b,
{
    if b != 0 {
        lemma_fundamental_div_mod(a as int, m);
        lemma_fundamental_div_mod(b as int, m);
        lemma_fundamental_div_mod(a as int, b as int);
        let (qa, qb, qab) = (a as int / m, b as int / m, a as int / b as int);
        let q = qa - qb * qab;
        assert((a % b) as int == q * m) by (nonlinear_arith)
            requires
                a == m * qa,
                b == m * qb,
                a == b * qab + (a % b) as int,
                q == qa - qb * qab,
        ;
        lemma_mod_multiples_basic(q, m);
        lemma_gcd_divisible(b, a % b, m);
    }
}

/// The modulus `m` of a full-state LCG `N' = a·N + c (mod m)` divides the gcd
/// of the determinants of its capture's exact windows.
pub proof fn lemma_lcg_modulus_divides(n: Seq<u64>, half: u64, m: int, a: int, c: int, k: int)
    requires
        m > 0,
        k <= n.len() - 2,
        forall|i: int| 0 <= i < n.len() - 1 ==> #[trigger] lcg_pair(n, m, a, c, i),
    ensures
        delta_gcd_upto(n, half, k) as int % m == 0,
    decreases k,
{
    vstd::arithmetic::div_mod::lemma_small_mod(0, m as nat);
    if k > 1 {
        lemma_lcg_modulus_divides(n, half, m, a, c, k - 1);
        if exact_window(n, half, k - 1) {
            lemma_delta_multiple(n, m, a, c, k - 1);
            lemma_gcd_divisible(delta_gcd_upto(n, half, k - 1), abs(delta(n, k - 1)), m);
        }
    }
}

// ---- full-state LCG fits ------------------------------------------------------------

/// `x ≡ y (mod md)`.
pub open spec fn cong(x: int, y: int, md: int) -> bool {
    (x - y) % md == 0
}

proof fn lemma_cong_witness(x: int, y: int, md: int)
    requires
        md > 0,
    ensures
        cong(x, y, md) <==> x - y == md * ((x - y) / md),
{
    lemma_fundamental_div_mod(x - y, md);
    if x - y == md * ((x - y) / md) {
        lemma_mod_multiples_basic((x - y) / md, md);
        assert(md * ((x - y) / md) == ((x - y) / md) * md) by (nonlinear_arith);
    }
}

proof fn lemma_cong_from(x: int, y: int, k: int, md: int)
    requires
        md > 0,
        x - y == md * k || y - x == md * k,
    ensures
        cong(x, y, md),
{
    if x - y == md * k {
        lemma_mod_multiples_basic(k, md);
        assert(md * k == k * md) by (nonlinear_arith);
    } else {
        assert(x - y == (-k) * md) by (nonlinear_arith)
            requires
                y - x == md * k,
        ;
        lemma_mod_multiples_basic(-k, md);
    }
}

/// A residue is congruent to its value.
proof fn lemma_cong_mod(x: int, md: int)
    requires
        md > 0,
    ensures
        cong(x % md, x, md),
{
    lemma_fundamental_div_mod(x, md);
    lemma_cong_from(x % md, x, x / md, md);
}

/// Congruent values leave the same residue.
proof fn lemma_cong_mod_eq(x: int, y: int, md: int)
    requires
        md > 0,
        cong(x, y, md),
    ensures
        x % md == y % md,
{
    lemma_cong_witness(x, y, md);
    vstd::arithmetic::div_mod::lemma_mod_multiples_vanish((x - y) / md, y, md);
}

proof fn lemma_cong_sym(x: int, y: int, md: int)
    requires
        md > 0,
        cong(x, y, md),
    ensures
        cong(y, x, md),
{
    lemma_cong_witness(x, y, md);
    lemma_cong_from(y, x, (x - y) / md, md);
}

proof fn lemma_cong_trans(x: int, y: int, z: int, md: int)
    requires
        md > 0,
        cong(x, y, md),
        cong(y, z, md),
    ensures
        cong(x, z, md),
{
    lemma_cong_witness(x, y, md);
    lemma_cong_witness(y, z, md);
    let (k1, k2) = ((x - y) / md, (y - z) / md);
    assert(x - z == md * (k1 + k2)) by (nonlinear_arith)
        requires
            x - y == md * k1,
            y - z == md * k2,
    ;
    lemma_cong_from(x, z, k1 + k2, md);
}

proof fn lemma_cong_add(x: int, y: int, u: int, v: int, md: int)
    requires
        md > 0,
        cong(x, y, md),
        cong(u, v, md),
    ensures
        cong(x + u, y + v, md),
        cong(x - u, y - v, md),
{
    lemma_cong_witness(x, y, md);
    lemma_cong_witness(u, v, md);
    let (k1, k2) = ((x - y) / md, (u - v) / md);
    assert(x + u - (y + v) == md * (k1 + k2) && x - u - (y - v) == md * (k1 - k2)) by (nonlinear_arith)
        requires
            x - y == md * k1,
            u - v == md * k2,
    ;
    lemma_cong_from(x + u, y + v, k1 + k2, md);
    lemma_cong_from(x - u, y - v, k1 - k2, md);
}

proof fn lemma_cong_mul(x: int, y: int, z: int, md: int)
    requires
        md > 0,
        cong(x, y, md),
    ensures
        cong(x * z, y * z, md),
        cong(z * x, z * y, md),
{
    lemma_cong_witness(x, y, md);
    let k = (x - y) / md;
    assert(x * z - y * z == md * (k * z) && z * x - z * y == md * (k * z)) by (nonlinear_arith)
        requires
            x - y == md * k,
    ;
    lemma_cong_from(x * z, y * z, k * z, md);
    lemma_cong_from(z * x, z * y, k * z, md);
}

/// Values `j`, `j + s` and `j + 2s` lie below `half` (exact in the double
/// conversion) and the first difference is odd, so invertible modulo `2^b`.
pub open spec fn fit_base(n: Seq<u64>, s: int, half: u64, md: int, j: int) -> bool {
    &&& n[j] < half
    &&& n[j + s] < half
    &&& n[j + 2 * s] < half
    &&& ((n[j + s] - n[j]) % md) % 2 == 1
}

/// `N' = m·N + a (mod md)` carries value `j` to `j + s` and `j + s` to `j + 2s`.
pub open spec fn fits_triple(n: Seq<u64>, s: int, md: int, j: int, m: int, a: int) -> bool {
    &&& 0 <= m < md
    &&& 0 <= a < md
    &&& cong(m * (n[j + s] - n[j]), n[j + 2 * s] - n[j + s], md)
    &&& cong(n[j + s] as int, m * n[j] + a, md)
}

/// `(x - y) mod md` for words below 2^64 and `md <= 2^63`.
fn sub_mod(x: u64, y: u64, md: u128) -> (r: u128)
    requires
        1 < md <= 0x8000_0000_0000_0000,
    ensures
        r == (x - y) % (md as int),
{
    let r = (x as u128 % md + md - y as u128 % md) % md;
    proof {
        let m = md as int;
        lemma_cong_mod(x as int, m);
        lemma_cong_mod(y as int, m);
        lemma_cong_add((x as int) % m, x as int, (y as int) % m, y as int, m);
        lemma_cong_from((x as int) % m + m - (y as int) % m, (x as int) % m - (y as int) % m, 1, m);
        lemma_cong_trans((x as int) % m + m - (y as int) % m, (x as int) % m - (y as int) % m, x - y, m);
        let z = (x as int) % m + m - (y as int) % m;
        lemma_cong_mod(z, m);
        lemma_cong_trans(z % m, z, x - y, m);
        lemma_cong_witness(z % m, x - y, m);
        let k = (z % m - (x - y)) / m;
        assert(x - y == (-k) * m + z % m) by (nonlinear_arith)
            requires
                z % m - (x - y) == m * k,
        ;
        lemma_fundamental_div_mod_converse(x - y, m, -k, z % m);
    }
    r
}

/// The full-state LCG `N' = m·N + a (mod 2^b)` through the first base `j <
/// limit` whose values `j`, `j + s`, `j + 2s` are exact and whose first
/// difference is odd: `m` from the two differences, `a` from the first step.
/// `None` when no base qualifies.
pub fn lcg_fit(n: &[u64], b: u32, s: usize, half: u64, limit: usize) -> (r: Option<(u64, u64, usize)>)
    requires
        1 <= b <= 63,
        s >= 1,
        limit + 2 * s <= n.len(),
    ensures
        r matches Some((m, a, j)) ==> j < limit && fit_base(n@, s as int, half, pow2(b as nat) as int, j as int)
            && fits_triple(n@, s as int, pow2(b as nat) as int, j as int, m as int, a as int),
        r matches Some((m, a, j)) ==> forall|k: int|
            0 <= k < j ==> !#[trigger] fit_base(n@, s as int, half, pow2(b as nat) as int, k),
        r is None ==> forall|k: int| 0 <= k < limit ==> !#[trigger] fit_base(n@, s as int, half, pow2(b as nat) as int, k),
{
    let md = pow2_u128(b);
    proof {
        lemma2_to64();
        vstd::arithmetic::power2::lemma2_to64_rest();
        if b < 63 {
            lemma_pow2_strictly_increases(b as nat, 63);
        }
        lemma_pow2_strictly_increases(0, b as nat);
    }
    let ghost mdi = md as int;
    let mut j: usize = 0;
    while j < limit
        invariant
            md == pow2(b as nat),
            mdi == md,
            1 < md <= 0x8000_0000_0000_0000,
            1 <= b <= 63,
            s >= 1,
            limit + 2 * s <= n.len(),
            j <= limit,
            forall|k: int| 0 <= k < j ==> !#[trigger] fit_base(n@, s as int, half, mdi, k),
        decreases limit - j,
    {
        let (n0, n1, n2) = (n[j], n[j + s], n[j + 2 * s]);
        if n0 < half && n1 < half && n2 < half {
            let d0 = sub_mod(n1, n0, md);
            if d0 % 2 == 1 {
                let d1 = sub_mod(n2, n1, md);
                let inv = inv_mod_pow2(d0, b);
                assert(d1 * inv < 0x4000_0000_0000_0000_0000_0000_0000_0000) by (nonlinear_arith)
                    requires
                        d1 < 0x8000_0000_0000_0000,
                        inv < 0x8000_0000_0000_0000,
                ;
                let m = d1 * inv % md;
                assert(m * (n0 as u128) < 0x8000_0000_0000_0000_0000_0000_0000_0000) by (nonlinear_arith)
                    requires
                        m < 0x8000_0000_0000_0000,
                        n0 < 0x1_0000_0000_0000_0000,
                ;
                let mn = m * (n0 as u128) % md;
                let a = (n1 as u128 % md + md - mn) % md;
                proof {
                    let (di0, di1, ii, mi) = (d0 as int, d1 as int, inv as int, m as int);
                    let (x0, x1, x2) = (n0 as int, n1 as int, n2 as int);
                    // m·d0 ≡ d1·(d0·inv) ≡ d1.
                    lemma_cong_mod(di1 * ii, mdi);
                    lemma_cong_mul(mi, di1 * ii, di0, mdi);
                    assert(di1 * ii * di0 == di1 * (di0 * ii)) by (nonlinear_arith);
                    lemma_cong_mod(di0 * ii, mdi);
                    lemma_cong_sym((di0 * ii) % mdi, di0 * ii, mdi);
                    lemma_cong_mul(di0 * ii, 1, di1, mdi);
                    lemma_cong_trans(mi * di0, di1 * (di0 * ii), di1 * 1, mdi);
                    // d0 ≡ n1 - n0 and d1 ≡ n2 - n1.
                    lemma_cong_mod(x1 - x0, mdi);
                    lemma_cong_mod(x2 - x1, mdi);
                    lemma_cong_mul(di0, x1 - x0, mi, mdi);
                    lemma_cong_sym(mi * di0, mi * (x1 - x0), mdi);
                    lemma_cong_trans(mi * (x1 - x0), mi * di0, di1, mdi);
                    lemma_cong_trans(mi * (x1 - x0), di1, x2 - x1, mdi);
                    // a ≡ n1 - m·n0.
                    lemma_cong_mod(mi * x0, mdi);
                    lemma_cong_mod(x1, mdi);
                    lemma_cong_add(x1 % mdi, x1, (mi * x0) % mdi, mi * x0, mdi);
                    let z = x1 % mdi + mdi - (mi * x0) % mdi;
                    lemma_cong_from(z, x1 % mdi - (mi * x0) % mdi, 1, mdi);
                    lemma_cong_trans(z, x1 % mdi - (mi * x0) % mdi, x1 - mi * x0, mdi);
                    lemma_cong_mod(z, mdi);
                    lemma_cong_trans(z % mdi, z, x1 - mi * x0, mdi);
                    let ai = a as int;
                    lemma_cong_witness(ai, x1 - mi * x0, mdi);
                    lemma_cong_from(x1, mi * x0 + ai, (ai - (x1 - mi * x0)) / mdi, mdi);
                }
                return Some((m as u64, a as u64, j));
            }
        }
        j = j + 1;
    }
    None
}

/// Values `k` and `k + s` are both exact.
pub open spec fn pair_exact(n: Seq<u64>, s: int, half: u64, k: int) -> bool {
    n[k] < half && n[k + s] < half
}

/// `N' = m·N + a (mod md)` carries value `k` to value `k + s`.
pub open spec fn pair_holds(n: Seq<u64>, s: int, md: int, m: int, a: int, k: int) -> bool {
    (m * n[k] + a) % md == n[k + s]
}

/// How many of the pairs `(k, k + s)` with `k < j` are exact.
pub open spec fn exact_pairs(n: Seq<u64>, s: int, half: u64, j: int) -> nat
    decreases j,
{
    if j <= 0 {
        0
    } else {
        exact_pairs(n, s, half, j - 1) + if pair_exact(n, s, half, j - 1) {
            1nat
        } else {
            0nat
        }
    }
}

/// How many of the exact pairs `(k, k + s)` with `k < j` the LCG carries.
pub open spec fn holding_pairs(n: Seq<u64>, s: int, half: u64, md: int, m: int, a: int, j: int) -> nat
    decreases j,
{
    if j <= 0 {
        0
    } else {
        holding_pairs(n, s, half, md, m, a, j - 1) + if pair_exact(n, s, half, j - 1) && pair_holds(
            n,
            s,
            md,
            m,
            a,
            j - 1,
        ) {
            1nat
        } else {
            0nat
        }
    }
}

/// Test an LCG `N' = m·N + a (mod 2^b)` between values `s` apart: how many
/// exact pairs it carries, and how many exact pairs there are.
pub fn lcg_holds(n: &[u64], b: u32, s: usize, half: u64, m: u64, a: u64) -> (r: (usize, usize))
    requires
        1 <= b <= 63,
        s <= n.len(),
        m < 0x8000_0000_0000_0000,
        a < 0x8000_0000_0000_0000,
    ensures
        r.0 == holding_pairs(n@, s as int, half, pow2(b as nat) as int, m as int, a as int, n.len() - s),
        r.1 == exact_pairs(n@, s as int, half, n.len() - s),
{
    let md = pow2_u128(b);
    proof {
        lemma2_to64();
        vstd::arithmetic::power2::lemma2_to64_rest();
        if b < 63 {
            lemma_pow2_strictly_increases(b as nat, 63);
        }
        lemma_pow2_strictly_increases(0, b as nat);
    }
    let mut ok: usize = 0;
    let mut tot: usize = 0;
    let mut k: usize = 0;
    while k < n.len() - s
        invariant
            md == pow2(b as nat),
            1 < md <= 0x8000_0000_0000_0000,
            s <= n.len(),
            m < 0x8000_0000_0000_0000,
            a < 0x8000_0000_0000_0000,
            k <= n.len() - s,
            ok <= tot <= k,
            ok == holding_pairs(n@, s as int, half, md as int, m as int, a as int, k as int),
            tot == exact_pairs(n@, s as int, half, k as int),
        decreases n.len() - s - k,
    {
        if n[k] < half && n[k + s] < half {
            tot = tot + 1;
            let x = n[k];
            assert(m * x <= 0x7fff_ffff_ffff_ffff * 0xffff_ffff_ffff_ffff) by (nonlinear_arith)
                requires
                    m < 0x8000_0000_0000_0000,
                    x <= 0xffff_ffff_ffff_ffff,
            ;
            if (m as u128 * x as u128 + a as u128) % md == n[k + s] as u128 {
                ok = ok + 1;
            }
        }
        k = k + 1;
    }
    (ok, tot)
}

// ---- second-order recurrences --------------------------------------------------

/// Values `k ..= k + 4` are all exact.
pub open spec fn run5(n: Seq<u64>, half: u64, k: int) -> bool {
    n[k] < half && n[k + 1] < half && n[k + 2] < half && n[k + 3] < half && n[k + 4] < half
}

/// The difference `n[k + 1] - n[k]`.
pub open spec fn diff(n: Seq<u64>, k: int) -> int {
    n[k + 1] - n[k]
}

/// The determinant of the system the run at `k` sets for `A` and `B`.
pub open spec fn det2(n: Seq<u64>, k: int) -> int {
    diff(n, k + 1) * diff(n, k + 1) - diff(n, k) * diff(n, k + 2)
}

/// `N'' = A·N' + B·N + C (mod md)` holds through the run at `k`.
pub open spec fn fits_second(n: Seq<u64>, md: int, k: int, a: int, b: int, c: int) -> bool {
    &&& 0 <= a < md
    &&& 0 <= b < md
    &&& 0 <= c < md
    &&& cong(a * diff(n, k + 1) + b * diff(n, k), diff(n, k + 2), md)
    &&& cong(a * diff(n, k + 2) + b * diff(n, k + 1), diff(n, k + 3), md)
    &&& cong(n[k + 2] as int, a * n[k + 1] + b * n[k] + c, md)
}

/// What fitting a second-order recurrence to a capture found.
pub enum SecondOrder {
    /// No run of five exact values.
    NoRun,
    /// The first run's system is singular (even determinant).
    Singular { at: usize },
    /// The recurrence `N'' = a·N' + b·N + c` through the first run.
    Fit { a: u64, b: u64, c: u64, at: usize },
}

/// `(u1·u2 - v1·v2) mod md` for residues.
fn mulsub_mod(u1: u128, u2: u128, v1: u128, v2: u128, md: u128) -> (r: u128)
    requires
        1 < md <= 0x8000_0000_0000_0000,
        u1 < md,
        u2 < md,
        v1 < md,
        v2 < md,
    ensures
        r == (u1 * u2 - v1 * v2) % (md as int),
{
    assert(u1 * u2 < 0x4000_0000_0000_0000_0000_0000_0000_0000 && v1 * v2 < 0x4000_0000_0000_0000_0000_0000_0000_0000)
        by (nonlinear_arith)
        requires
            u1 < 0x8000_0000_0000_0000,
            u2 < 0x8000_0000_0000_0000,
            v1 < 0x8000_0000_0000_0000,
            v2 < 0x8000_0000_0000_0000,
    ;
    let (x, y) = (u1 * u2, v1 * v2);
    let r = (x % md + md - y % md) % md;
    proof {
        let m = md as int;
        lemma_cong_mod(x as int, m);
        lemma_cong_mod(y as int, m);
        lemma_cong_add((x as int) % m, x as int, (y as int) % m, y as int, m);
        let z = (x as int) % m + m - (y as int) % m;
        lemma_cong_from(z, (x as int) % m - (y as int) % m, 1, m);
        lemma_cong_trans(z, (x as int) % m - (y as int) % m, x - y, m);
        lemma_cong_mod(z, m);
        lemma_cong_trans(z % m, z, x - y, m);
        lemma_cong_witness(z % m, x - y, m);
        let k = (z % m - (x - y)) / m;
        assert(x - y == (-k) * m + z % m) by (nonlinear_arith)
            requires
                z % m - (x - y) == m * k,
        ;
        lemma_fundamental_div_mod_converse(x - y, m, -k, z % m);
    }
    r
}

/// Cramer's rule modulo `md`: with `I` inverting the determinant, `A` and `B`
/// solve the system of the run.
proof fn lemma_cramer(p00: int, p01: int, p10: int, r1: int, det: int, i: int, x: int, y: int, a: int, b: int, md: int)
    requires
        md > 0,
        cong(det, p00 * p00 - p01 * p10, md),
        cong(det * i, 1, md),
        cong(x, p00 * p10 - p01 * r1, md),
        cong(y, p00 * r1 - p10 * p10, md),
        cong(a, x * i, md),
        cong(b, y * i, md),
    ensures
        cong(a * p00 + b * p01, p10, md),
        cong(a * p10 + b * p00, r1, md),
{
    let dd = p00 * p00 - p01 * p10;
    // a ≡ (p00·p10 - p01·r1)·i and b ≡ (p00·r1 - p10²)·i.
    lemma_cong_mul(x, p00 * p10 - p01 * r1, i, md);
    lemma_cong_trans(a, x * i, (p00 * p10 - p01 * r1) * i, md);
    lemma_cong_mul(y, p00 * r1 - p10 * p10, i, md);
    lemma_cong_trans(b, y * i, (p00 * r1 - p10 * p10) * i, md);
    let ea = (p00 * p10 - p01 * r1) * i;
    let eb = (p00 * r1 - p10 * p10) * i;
    // i·dd ≡ 1.
    lemma_cong_sym(det, dd, md);
    lemma_cong_mul(dd, det, i, md);
    lemma_cong_trans(dd * i, det * i, 1, md);
    // First equation.
    lemma_cong_mul(a, ea, p00, md);
    lemma_cong_mul(b, eb, p01, md);
    lemma_cong_add(a * p00, ea * p00, b * p01, eb * p01, md);
    let (a1, b1) = (p00 * p10 - p01 * r1, p00 * r1 - p10 * p10);
    let (t1, t2, t4) = (p00 * p10 * p00, p01 * r1 * p00, p10 * p10 * p01);
    assert(a1 * p00 == t1 - t2) by (nonlinear_arith)
        requires
            a1 == p00 * p10 - p01 * r1,
            t1 == p00 * p10 * p00,
            t2 == p01 * r1 * p00,
    ;
    assert(b1 * p01 == t2 - t4) by (nonlinear_arith)
        requires
            b1 == p00 * r1 - p10 * p10,
            t2 == p01 * r1 * p00,
            t4 == p10 * p10 * p01,
    ;
    assert(p10 * dd == t1 - t4) by (nonlinear_arith)
        requires
            dd == p00 * p00 - p01 * p10,
            t1 == p00 * p10 * p00,
            t4 == p10 * p10 * p01,
    ;
    assert(ea * p00 + eb * p01 == (a1 * p00 + b1 * p01) * i) by (nonlinear_arith)
        requires
            ea == a1 * i,
            eb == b1 * i,
    ;
    assert((p10 * dd) * i == p10 * (dd * i)) by (nonlinear_arith);
    lemma_cong_mul(dd * i, 1, p10, md);
    assert(p10 * 1 == p10);
    lemma_cong_trans(a * p00 + b * p01, ea * p00 + eb * p01, p10, md);
    // Second equation.
    lemma_cong_mul(a, ea, p10, md);
    lemma_cong_mul(b, eb, p00, md);
    lemma_cong_add(a * p10, ea * p10, b * p00, eb * p00, md);
    assert(a1 * p10 + b1 * p00 == r1 * dd) by (nonlinear_arith)
        requires
            a1 == p00 * p10 - p01 * r1,
            b1 == p00 * r1 - p10 * p10,
            dd == p00 * p00 - p01 * p10,
    ;
    assert(ea * p10 + eb * p00 == (a1 * p10 + b1 * p00) * i) by (nonlinear_arith)
        requires
            ea == a1 * i,
            eb == b1 * i,
    ;
    assert((r1 * dd) * i == r1 * (dd * i)) by (nonlinear_arith);
    lemma_cong_mul(dd * i, 1, r1, md);
    assert(r1 * 1 == r1);
    lemma_cong_trans(a * p10 + b * p00, ea * p10 + eb * p00, r1, md);
}

/// Substituting congruent values keeps the second-order equations.
proof fn lemma_second_subst(a: int, b: int, p00: int, p01: int, p10: int, r1: int, e0: int, e1: int, e2: int, e3: int, md: int)
    requires
        md > 0,
        cong(p01, e0, md),
        cong(p00, e1, md),
        cong(p10, e2, md),
        cong(r1, e3, md),
        cong(a * p00 + b * p01, p10, md),
        cong(a * p10 + b * p00, r1, md),
    ensures
        cong(a * e1 + b * e0, e2, md),
        cong(a * e2 + b * e1, e3, md),
{
    lemma_cong_mul(p00, e1, a, md);
    lemma_cong_mul(p01, e0, b, md);
    lemma_cong_mul(p10, e2, a, md);
    lemma_cong_add(a * p00, a * e1, b * p01, b * e0, md);
    lemma_cong_sym(a * p00 + b * p01, a * e1 + b * e0, md);
    lemma_cong_trans(a * e1 + b * e0, a * p00 + b * p01, p10, md);
    lemma_cong_trans(a * e1 + b * e0, p10, e2, md);
    lemma_cong_mul(p00, e1, b, md);
    lemma_cong_add(a * p10, a * e2, b * p00, b * e1, md);
    lemma_cong_sym(a * p10 + b * p00, a * e2 + b * e1, md);
    lemma_cong_trans(a * e2 + b * e1, a * p10 + b * p00, r1, md);
    lemma_cong_trans(a * e2 + b * e1, r1, e3, md);
}

/// Fit `N'' = A·N' + B·N + C (mod 2^bits)` to the first run of five exact
/// values: the two difference equations of the run give `A` and `B` by
/// Cramer's rule when the determinant is odd, and the run's first step gives
/// `C`.
pub fn second_order_fit(n: &[u64], bits: u32, half: u64) -> (r: SecondOrder)
    requires
        1 <= bits <= 63,
        n.len() >= 5,
    ensures
        r is NoRun <==> forall|k: int| 0 <= k <= n.len() - 5 ==> !#[trigger] run5(n@, half, k),
        r matches SecondOrder::Singular { at } ==> at <= n.len() - 5 && run5(n@, half, at as int) && (forall|k: int|
            0 <= k < at ==> !#[trigger] run5(n@, half, k)) && (det2(n@, at as int) % (pow2(bits as nat) as int)) % 2 == 0,
        r matches SecondOrder::Fit { a, b, c, at } ==> at <= n.len() - 5 && run5(n@, half, at as int) && (forall|k: int|
            0 <= k < at ==> !#[trigger] run5(n@, half, k)) && (det2(n@, at as int) % (pow2(bits as nat) as int)) % 2 == 1
            && fits_second(n@, pow2(bits as nat) as int, at as int, a as int, b as int, c as int),
{
    let md = pow2_u128(bits);
    proof {
        lemma2_to64();
        vstd::arithmetic::power2::lemma2_to64_rest();
        if bits < 63 {
            lemma_pow2_strictly_increases(bits as nat, 63);
        }
        lemma_pow2_strictly_increases(0, bits as nat);
    }
    let ghost mdi = md as int;
    let mut k: usize = 0;
    while k <= n.len() - 5
        invariant
            1 <= bits <= 63,
            n.len() >= 5,
            md == pow2(bits as nat),
            mdi == md,
            1 < md <= 0x8000_0000_0000_0000,
            k <= n.len() - 4,
            forall|j: int| 0 <= j < k ==> !#[trigger] run5(n@, half, j),
        decreases n.len() - k,
    {
        if n[k] < half && n[k + 1] < half && n[k + 2] < half && n[k + 3] < half && n[k + 4] < half {
            let p01 = sub_mod(n[k + 1], n[k], md);
            let p00 = sub_mod(n[k + 2], n[k + 1], md);
            let p10 = sub_mod(n[k + 3], n[k + 2], md);
            let r1 = sub_mod(n[k + 4], n[k + 3], md);
            let det = mulsub_mod(p00, p00, p01, p10, md);
            let ghost (e0, e1, e2, e3) = (diff(n@, k as int), diff(n@, k + 1), diff(n@, k + 2), diff(n@, k + 3));
            proof {
                assert(n@[k + 2] - n@[k + 1] == e1);
                lemma_cong_mod(e0, mdi);
                lemma_cong_mod(e1, mdi);
                lemma_cong_mod(e2, mdi);
                lemma_cong_mod(e3, mdi);
                // det ≡ e1² - e0·e2.
                lemma_cong_mod(p00 * p00 - p01 * p10, mdi);
                lemma_cong_mul(p00 as int, e1, p00 as int, mdi);
                lemma_cong_mul(p00 as int, e1, e1, mdi);
                assert(e1 * p00 == p00 * e1) by (nonlinear_arith);
                lemma_cong_trans(p00 * p00, e1 * p00, e1 * e1, mdi);
                lemma_cong_mul(p01 as int, e0, p10 as int, mdi);
                lemma_cong_mul(p10 as int, e2, e0, mdi);
                assert(e0 * p10 == p10 * e0) by (nonlinear_arith);
                assert(e2 * e0 == e0 * e2) by (nonlinear_arith);
                lemma_cong_trans(p01 * p10, e0 * p10, e0 * e2, mdi);
                lemma_cong_add(p00 * p00, e1 * e1, p01 * p10, e0 * e2, mdi);
                lemma_cong_trans(det as int, p00 * p00 - p01 * p10, e1 * e1 - e0 * e2, mdi);
                lemma_cong_witness(det as int, e1 * e1 - e0 * e2, mdi);
                let w = (det - (e1 * e1 - e0 * e2)) / mdi;
                assert(e1 * e1 - e0 * e2 == (-w) * mdi + det) by (nonlinear_arith)
                    requires
                        det - (e1 * e1 - e0 * e2) == mdi * w,
                ;
                lemma_fundamental_div_mod_converse(e1 * e1 - e0 * e2, mdi, -w, det as int);
                assert(det2(n@, k as int) == e1 * e1 - e0 * e2);
            }
            assert(run5(n@, half, k as int));
            if det % 2 == 0 {
                return SecondOrder::Singular { at: k };
            }
            let idet = inv_mod_pow2(det, bits);
            let x = mulsub_mod(p00, p10, p01, r1, md);
            let y = mulsub_mod(p00, r1, p10, p10, md);
            assert(x * idet < 0x4000_0000_0000_0000_0000_0000_0000_0000 && y * idet
                < 0x4000_0000_0000_0000_0000_0000_0000_0000) by (nonlinear_arith)
                requires
                    x < 0x8000_0000_0000_0000,
                    y < 0x8000_0000_0000_0000,
                    idet < 0x8000_0000_0000_0000,
            ;
            let a = x * idet % md;
            let b = y * idet % md;
            let (x0, x1, x2) = (n[k] as u128, n[k + 1] as u128, n[k + 2] as u128);
            assert(a * x1 < 0x8000_0000_0000_0000_0000_0000_0000_0000 && b * x0
                < 0x8000_0000_0000_0000_0000_0000_0000_0000) by (nonlinear_arith)
                requires
                    a < 0x8000_0000_0000_0000,
                    b < 0x8000_0000_0000_0000,
                    x0 < 0x1_0000_0000_0000_0000,
                    x1 < 0x1_0000_0000_0000_0000,
            ;
            let c = (x2 % md + 2 * md - (a * x1) % md - (b * x0) % md) % md;
            proof {
                let (ai, bi, ci, ii) = (a as int, b as int, c as int, idet as int);
                lemma_cong_mod(det * ii, mdi);
                lemma_cong_sym((det * ii) % mdi, det * ii, mdi);
                lemma_cong_mod(p00 * p10 - p01 * r1, mdi);
                lemma_cong_mod(p00 * r1 - p10 * p10, mdi);
                lemma_cong_mod(x * ii, mdi);
                lemma_cong_mod(y * ii, mdi);
                lemma_cong_sym((p00 * p00 - p01 * p10) % mdi, p00 * p00 - p01 * p10, mdi);
                lemma_cramer(
                    p00 as int,
                    p01 as int,
                    p10 as int,
                    r1 as int,
                    det as int,
                    ii,
                    x as int,
                    y as int,
                    ai,
                    bi,
                    mdi,
                );
                lemma_cong_sym(e0 % mdi, e0, mdi);
                lemma_second_subst(ai, bi, p00 as int, p01 as int, p10 as int, r1 as int, e0, e1, e2, e3, mdi);
                // c ≡ n2 - a·n1 - b·n0.
                let (y0, y1, y2) = (x0 as int, x1 as int, x2 as int);
                lemma_cong_mod(y2, mdi);
                lemma_cong_mod(ai * y1, mdi);
                lemma_cong_mod(bi * y0, mdi);
                lemma_cong_add(y2 % mdi, y2, (ai * y1) % mdi, ai * y1, mdi);
                lemma_cong_add(y2 % mdi - (ai * y1) % mdi, y2 - ai * y1, (bi * y0) % mdi, bi * y0, mdi);
                let z = y2 % mdi + 2 * mdi - (ai * y1) % mdi - (bi * y0) % mdi;
                lemma_cong_from(z, y2 % mdi - (ai * y1) % mdi - (bi * y0) % mdi, 2, mdi);
                lemma_cong_trans(z, y2 % mdi - (ai * y1) % mdi - (bi * y0) % mdi, y2 - ai * y1 - bi * y0, mdi);
                lemma_cong_mod(z, mdi);
                lemma_cong_trans(z % mdi, z, y2 - ai * y1 - bi * y0, mdi);
                lemma_cong_witness(ci, y2 - ai * y1 - bi * y0, mdi);
                lemma_cong_from(y2, ai * y1 + bi * y0 + ci, (ci - (y2 - ai * y1 - bi * y0)) / mdi, mdi);
            }
            return SecondOrder::Fit { a: a as u64, b: b as u64, c: c as u64, at: k };
        }
        k = k + 1;
    }
    SecondOrder::NoRun
}

/// How many of the exact triples `(i - 2, i - 1, i)` with `at + 2 <= i < j`
/// the second-order recurrence carries, and how many there are.
pub open spec fn second_counts(n: Seq<u64>, half: u64, md: int, a: int, b: int, c: int, at: int, j: int) -> (nat, nat)
    decreases j - at,
{
    if j <= at + 2 {
        (0, 0)
    } else {
        let prev = second_counts(n, half, md, a, b, c, at, j - 1);
        let i = j - 1;
        if n[i] < half && n[i - 1] < half && n[i - 2] < half {
            (
                prev.0 + if (a * n[i - 1] + b * n[i - 2] + c) % md == n[i] {
                    1nat
                } else {
                    0nat
                },
                prev.1 + 1,
            )
        } else {
            prev
        }
    }
}

/// Test the recurrence `N'' = a·N' + b·N + c (mod 2^bits)` on every exact
/// triple after the run at `at`: how many it carries, and how many there are.
pub fn second_order_holds(n: &[u64], bits: u32, half: u64, a: u64, b: u64, c: u64, at: usize) -> (r: (usize, usize))
    requires
        1 <= bits <= 63,
        a < 0x8000_0000_0000_0000,
        b < 0x8000_0000_0000_0000,
        c < 0x8000_0000_0000_0000,
        at + 2 <= n.len(),
    ensures
        (r.0 as nat, r.1 as nat) == second_counts(
            n@,
            half,
            pow2(bits as nat) as int,
            a as int,
            b as int,
            c as int,
            at as int,
            n.len() as int,
        ),
{
    let md = pow2_u128(bits);
    proof {
        lemma2_to64();
        vstd::arithmetic::power2::lemma2_to64_rest();
        if bits < 63 {
            lemma_pow2_strictly_increases(bits as nat, 63);
        }
        lemma_pow2_strictly_increases(0, bits as nat);
    }
    let mut ok: usize = 0;
    let mut tot: usize = 0;
    let mut i: usize = at + 2;
    while i < n.len()
        invariant
            md == pow2(bits as nat),
            1 < md <= 0x8000_0000_0000_0000,
            a < 0x8000_0000_0000_0000,
            b < 0x8000_0000_0000_0000,
            c < 0x8000_0000_0000_0000,
            at + 2 <= i <= n.len(),
            ok <= tot <= i,
            (ok as nat, tot as nat) == second_counts(n@, half, md as int, a as int, b as int, c as int, at as int, i as int),
        decreases n.len() - i,
    {
        if n[i] < half && n[i - 1] < half && n[i - 2] < half {
            let (u, v) = (n[i - 1], n[i - 2]);
            assert(a * u < 0x8000_0000_0000_0000_0000_0000_0000_0000 && b * v < 0x8000_0000_0000_0000_0000_0000_0000_0000)
                by (nonlinear_arith)
                requires
                    a < 0x8000_0000_0000_0000,
                    b < 0x8000_0000_0000_0000,
                    u < 0x1_0000_0000_0000_0000,
                    v < 0x1_0000_0000_0000_0000,
            ;
            let t = (a as u128 * u as u128) % md + (b as u128 * v as u128) % md + c as u128;
            proof {
                let m = md as int;
                let (au, bv) = (a * u, b * v);
                lemma_cong_mod(au, m);
                lemma_cong_mod(bv, m);
                lemma_cong_add(au % m, au, bv % m, bv, m);
                lemma_cong_from(c as int, c as int, 0, m);
                lemma_cong_add(au % m + bv % m, au + bv, c as int, c as int, m);
                lemma_cong_mod_eq(t as int, au + bv + c, m);
            }
            if t % md == n[i] as u128 {
                ok = ok + 1;
            }
            tot = tot + 1;
        }
        i = i + 1;
    }
    (ok, tot)
}

// ---- two 32-bit LCG calls per value -------------------------------------------

/// A hypothesis for values made of two calls of a 32-bit LCG `rand()`: the
/// LCG's multiplier and increment, the bits of the state a call returns
/// (`bits` bits from bit `shift`), and whether the first call gives the high
/// half of the value.
#[derive(Clone, Copy)]
pub struct RandPair {
    pub mult: u64,
    pub add: u64,
    pub shift: u64,
    pub bits: u64,
    pub first_high: bool,
}

/// One `rand()` state step.
pub open spec fn rp_step(p: RandPair, s: u64) -> u64 {
    s.wrapping_mul(p.mult).wrapping_add(p.add) & 0xffff_ffff
}

/// What a call returns from the state it stepped to.
pub open spec fn rp_out(p: RandPair, s: u64) -> u64 {
    (s >> p.shift) & ((1u64 << p.bits) - 1) as u64
}

/// The value two calls make, from the states they stepped to.
pub open spec fn rp_value(p: RandPair, s1: u64, s2: u64) -> u64 {
    if p.first_high {
        (rp_out(p, s1) << p.bits) | rp_out(p, s2)
    } else {
        (rp_out(p, s2) << p.bits) | rp_out(p, s1)
    }
}

/// How many values from index `j` on the pairs of calls reproduce from the
/// state `st`, stopping at the first mismatch.
pub open spec fn rp_run(p: RandPair, st: u64, n: Seq<u64>, j: int) -> nat
    decreases n.len() - j,
{
    if j < 1 || j >= n.len() {
        0
    } else {
        let a1 = rp_step(p, st);
        let a2 = rp_step(p, a1);
        if rp_value(p, a1, a2) == n[j] {
            1 + rp_run(p, a2, n, j + 1)
        } else {
            0
        }
    }
}

/// The state of the first call behind value 0 whose bits the call does not
/// return are `x`: the returned bits are the first call's part of value 0.
pub open spec fn rp_candidate(p: RandPair, n0: u64, x: u64) -> u64 {
    let mask = ((1u64 << p.bits) - 1) as u64;
    let first = if p.first_high {
        n0 >> p.bits
    } else {
        n0 & mask
    };
    let xlow = x & ((1u64 << p.shift) - 1) as u64;
    let xhigh = x >> p.shift;
    ((xhigh << (p.shift + p.bits) as u64) | (first << p.shift) | xlow) & 0xffff_ffff
}

/// The second call's part of value 0.
pub open spec fn rp_second(p: RandPair, n0: u64) -> u64 {
    if p.first_high {
        n0 & ((1u64 << p.bits) - 1) as u64
    } else {
        n0 >> p.bits
    }
}

/// Guess `x` gives a first state whose next call returns the rest of value 0,
/// and the calls after it reproduce more than `need` of the following values.
pub open spec fn rp_hit(p: RandPair, n: Seq<u64>, x: u64, need: nat) -> bool {
    let s1 = rp_candidate(p, n[0], x);
    let s2 = rp_step(p, s1);
    rp_out(p, s2) == rp_second(p, n[0]) && rp_run(p, s2, n, 1) > need
}

/// Search the `2^(32 - bits)` first-call states that value 0 leaves open for
/// the first one whose calls reproduce more than `need` of the following
/// values: that state and how many values it reproduces.
pub fn rand_pair_search(n: &[u64], p: RandPair, need: usize) -> (r: Option<(u64, usize)>)
    requires
        n.len() >= 1,
        12 <= p.bits,
        p.shift + p.bits <= 32,
    ensures
        r matches Some((s1, ok)) ==> exists|x: u64|
            x < (1u64 << (32 - p.bits) as u64) && s1 == rp_candidate(p, n@[0], x) && #[trigger] rp_hit(p, n@, x, need as nat)
                && ok == rp_run(p, rp_step(p, s1), n@, 1) && forall|y: u64| y < x ==> !#[trigger] rp_hit(p, n@, y, need as nat),
        r is None ==> forall|x: u64| x < (1u64 << (32 - p.bits) as u64) ==> !#[trigger] rp_hit(p, n@, x, need as nat),
{
    proof {
        lemma2_to64();
        lemma_shl_mul(1, p.bits);
        lemma_shl_mul(1, p.shift);
        lemma_shl_mul(1, (32 - p.bits) as u64);
        if p.bits < 32 {
            lemma_pow2_strictly_increases(p.bits as nat, 32);
        }
        if p.shift < 32 {
            lemma_pow2_strictly_increases(p.shift as nat, 32);
        }
        if 32 - p.bits < 32 {
            lemma_pow2_strictly_increases((32 - p.bits) as nat, 32);
        }
        lemma_pow2_pos(p.bits as nat);
        lemma_pow2_pos(p.shift as nat);
    }
    let mask: u64 = (1u64 << p.bits) - 1;
    let low: u64 = (1u64 << p.shift) - 1;
    let lim: u64 = 1u64 << (32 - p.bits);
    let n0 = n[0];
    let first = if p.first_high {
        n0 >> p.bits
    } else {
        n0 & mask
    };
    let second = if p.first_high {
        n0 & mask
    } else {
        n0 >> p.bits
    };
    let mut x: u64 = 0;
    while x < lim
        invariant
            n.len() >= 1,
            n0 == n@[0],
            12 <= p.bits,
            p.shift + p.bits <= 32,
            mask == ((1u64 << p.bits) - 1) as u64,
            low == ((1u64 << p.shift) - 1) as u64,
            lim == 1u64 << (32 - p.bits) as u64,
            first == (if p.first_high { n0 >> p.bits } else { n0 & mask }),
            second == rp_second(p, n0),
            forall|y: u64| y < x ==> !#[trigger] rp_hit(p, n@, y, need as nat),
        decreases lim - x,
    {
        let xlow = x & low;
        let xhigh = x >> p.shift;
        let s1 = ((xhigh << (p.shift + p.bits)) | (first << p.shift) | xlow) & 0xffff_ffff;
        assert(s1 == rp_candidate(p, n0, x));
        let s2 = s1.wrapping_mul(p.mult).wrapping_add(p.add) & 0xffff_ffff;
        if (s2 >> p.shift) & mask == second {
            let mut st = s2;
            let mut ok: usize = 0;
            let mut j: usize = 1;
            while j < n.len()
                invariant
                    1 <= j <= n.len(),
                    ok == j - 1,
                    12 <= p.bits,
                    p.shift + p.bits <= 32,
                    mask == ((1u64 << p.bits) - 1) as u64,
                    ok + rp_run(p, st, n@, j as int) == rp_run(p, s2, n@, 1),
                ensures
                    ok == rp_run(p, s2, n@, 1),
                decreases n.len() - j,
            {
                let a1 = st.wrapping_mul(p.mult).wrapping_add(p.add) & 0xffff_ffff;
                let a2 = a1.wrapping_mul(p.mult).wrapping_add(p.add) & 0xffff_ffff;
                let (o1, o2) = ((a1 >> p.shift) & mask, (a2 >> p.shift) & mask);
                let v = if p.first_high {
                    (o1 << p.bits) | o2
                } else {
                    (o2 << p.bits) | o1
                };
                assert(v == rp_value(p, a1, a2));
                if v != n[j] {
                    assert(rp_run(p, st, n@, j as int) == 0);
                    break;
                }
                ok = ok + 1;
                st = a2;
                j = j + 1;
            }
            if ok > need {
                proof {
                    assert(rp_hit(p, n@, x, need as nat));
                    assert(x < (1u64 << (32 - p.bits) as u64) && s1 == rp_candidate(p, n@[0], x) && rp_hit(p, n@, x, need as nat)
                        && ok == rp_run(p, rp_step(p, s1), n@, 1) && forall|y: u64| y < x ==> !#[trigger] rp_hit(p, n@, y, need as nat));
                }
                return Some((s1, ok));
            }
        }
        x = x + 1;
    }
    None
}

// ---- wall-clock seeds ------------------------------------------------------------

/// The MSVCRT `rand()` state `k` steps back from `st`.
pub open spec fn rand_back(st: u32, k: nat) -> u32
    decreases k,
{
    if k == 0 {
        st
    } else {
        v8_libc::prev_spec(rand_back(st, (k - 1) as nat))
    }
}

/// `s` is what `srand(t)` sets for a `t` between 600 seconds before and 5
/// seconds after the capture's epoch second (the page loaded shortly before).
pub open spec fn near_epoch(s: u64, epoch_s: u64) -> bool {
    s + 600 >= epoch_s && s <= epoch_s + 5
}

/// Step a recovered `rand()` state back up to `steps` times and collect the
/// first `max_hits` states that a wall-clock `srand` near `epoch_s` could have
/// set, each as `(seed, steps back)`.
pub fn srand_hits(st: u32, epoch_s: u64, steps: u64, max_hits: usize) -> (r: Vec<(u64, u64)>)
    ensures
        r.len() <= max_hits,
        forall|i: int|
            0 <= i < r.len() ==> (#[trigger] r@[i]).1 < steps && r@[i].0 == rand_back(st, r@[i].1 as nat) as u64
                && near_epoch(r@[i].0, epoch_s),
        forall|i: int, j: int| 0 <= i < j < r.len() ==> r@[i].1 < r@[j].1,
        forall|k: u64|
            k < steps && near_epoch(#[trigger] rand_back(st, k as nat) as u64, epoch_s) ==> (exists|i: int|
                0 <= i < r.len() && (#[trigger] r@[i]).1 == k) || (r.len() == max_hits && (max_hits == 0 || k
                > r@[max_hits - 1].1)),
{
    let mut out: Vec<(u64, u64)> = Vec::new();
    let mut s = st;
    let mut k: u64 = 0;
    while k < steps && out.len() < max_hits
        invariant
            k <= steps,
            out.len() <= max_hits,
            s == rand_back(st, k as nat),
            forall|i: int|
                0 <= i < out.len() ==> (#[trigger] out@[i]).1 < k && out@[i].0 == rand_back(st, out@[i].1 as nat) as u64
                    && near_epoch(out@[i].0, epoch_s),
            forall|i: int, j: int| 0 <= i < j < out.len() ==> out@[i].1 < out@[j].1,
            forall|j: u64|
                j < k && near_epoch(#[trigger] rand_back(st, j as nat) as u64, epoch_s) ==> exists|i: int|
                    0 <= i < out.len() && (#[trigger] out@[i]).1 == j,
        decreases steps - k,
    {
        let v = s as u64;
        let ghost before = out@;
        if v + 600 >= epoch_s && (v <= epoch_s || v - epoch_s <= 5) {
            out.push((v, k));
        }
        proof {
            assert forall|j: u64|
                j < k + 1 && near_epoch(#[trigger] rand_back(st, j as nat) as u64, epoch_s) implies exists|i: int|
                0 <= i < out.len() && (#[trigger] out@[i]).1 == j by {
                if j == k {
                    assert(out@[out.len() - 1].1 == k);
                } else {
                    let i = choose|i: int| 0 <= i < before.len() && (#[trigger] before[i]).1 == j;
                    assert(out@[i] == before[i]);
                }
            }
        }
        s = v8_libc::prev(s);
        k = k + 1;
    }
    proof {
        if out.len() == max_hits && max_hits > 0 {
            assert(out@[max_hits - 1].1 < k);
        }
    }
    out
}

// ---- bit statistics --------------------------------------------------------------

/// How many of the first `k` values have bit `bit` set.
pub open spec fn ones_upto(n: Seq<u64>, bit: u64, k: int) -> nat
    decreases k,
{
    if k <= 0 {
        0
    } else {
        ones_upto(n, bit, k - 1) + if (n[k - 1] >> bit) & 1 == 1 {
            1nat
        } else {
            0nat
        }
    }
}

/// How many values have bit `bit` set.
pub fn bit_ones(n: &[u64], bit: u64) -> (r: usize)
    requires
        bit < 64,
    ensures
        r == ones_upto(n@, bit, n.len() as int),
{
    let mut c: usize = 0;
    let mut i: usize = 0;
    while i < n.len()
        invariant
            bit < 64,
            i <= n.len(),
            c <= i,
            c == ones_upto(n@, bit, i as int),
        decreases n.len() - i,
    {
        if (n[i] >> bit) & 1 == 1 {
            c = c + 1;
        }
        i = i + 1;
    }
    c
}

/// Value `i` repeats one before it.
pub open spec fn repeats(n: Seq<u64>, i: int) -> bool {
    exists|j: int| 0 <= j < i && n[j] == n[i]
}

/// How many of the first `k` values repeat one before them.
pub open spec fn repeats_upto(n: Seq<u64>, k: int) -> nat
    decreases k,
{
    if k <= 0 {
        0
    } else {
        repeats_upto(n, k - 1) + if repeats(n, k - 1) {
            1nat
        } else {
            0nat
        }
    }
}

/// How many values repeat an earlier one: the count of values less the count
/// of distinct values (a generator with a small state repeats early).
pub fn duplicates(n: &[u64]) -> (r: usize)
    ensures
        r == repeats_upto(n@, n.len() as int),
{
    let mut c: usize = 0;
    let mut i: usize = 0;
    while i < n.len()
        invariant
            i <= n.len(),
            c <= i,
            c == repeats_upto(n@, i as int),
        decreases n.len() - i,
    {
        let mut j: usize = 0;
        let mut seen = false;
        while j < i && !seen
            invariant
                j <= i,
                i < n.len(),
                seen ==> repeats(n@, i as int),
                !seen ==> forall|t: int| 0 <= t < j ==> n@[t] != n@[i as int],
            decreases i - j,
        {
            if n[j] == n[i] {
                seen = true;
            }
            j = j + 1;
        }
        if seen {
            c = c + 1;
        }
        i = i + 1;
    }
    c
}

} // verus!
