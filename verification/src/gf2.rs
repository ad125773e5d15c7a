//! Minimal GF(2) linear-algebra solver.
//!
//! Linear PRNGs (xorshift128+ and friends) are linear maps over GF(2), so every
//! observed output bit is a linear equation in the seed bits. With enough
//! independent equations we recover a 128-bit seed by Gaussian elimination — no
//! SAT/SMT solver required. Equations are `(coeff, rhs)` where `coeff` is a
//! 128-bit mask over the seed bits and `rhs` is the observed bit.
use vstd::prelude::*;

verus! {

/// Bit `i` of `x`.
pub open spec fn bit(x: u128, i: u128) -> bool {
    (x >> i) & 1 == 1
}

/// GF(2) inner product of `c` and `x` over their low `n` bits.
pub open spec fn dotn(c: u128, x: u128, n: nat) -> bool
    decreases n,
{
    if n == 0 {
        false
    } else {
        dotn(c, x, (n - 1) as nat) != (bit(c, (n - 1) as u128) && bit(x, (n - 1) as u128))
    }
}

/// GF(2) inner product of two 128-bit vectors: the parity of `c & x`.
pub open spec fn dot(c: u128, x: u128) -> bool {
    dotn(c, x, 128)
}

/// `x` satisfies the equation `row`: `parity(row.0 & x) == row.1`.
pub open spec fn row_sat(row: (u128, u8), x: u128) -> bool {
    dot(row.0, x) == (row.1 == 1)
}

/// `x` satisfies every equation of the system.
pub open spec fn sat_all(m: Seq<(u128, u8)>, x: u128) -> bool {
    forall|i: int| 0 <= i < m.len() ==> #[trigger] row_sat(m[i], x)
}

/// The system has a solution.
pub open spec fn consistent(m: Seq<(u128, u8)>) -> bool {
    exists|x: u128| sat_all(m, x)
}

/// Every right-hand side is a single bit (0 or 1).
pub open spec fn rhs_are_bits(m: Seq<(u128, u8)>) -> bool {
    forall|i: int| 0 <= i < m.len() ==> #[trigger] m[i].1 <= 1
}

/// The sum of two equations.
pub open spec fn xor_row(r: (u128, u8), p: (u128, u8)) -> (u128, u8) {
    (r.0 ^ p.0, r.1 ^ p.1)
}

spec fn low128(i: u128) -> u128 {
    !(0xffff_ffff_ffff_ffff_ffff_ffff_ffff_ffffu128 << i)
}

proof fn lemma_bit_xor(a: u128, b: u128, i: u128)
    by (bit_vector)
    requires
        i < 128,
    ensures
        bit(a ^ b, i) == (bit(a, i) != bit(b, i)),
{
}

proof fn lemma_bit_or_single(x: u128, c: u128, i: u128)
    by (bit_vector)
    requires
        i < 128,
        c < 128,
    ensures
        bit(x | (1u128 << c), i) == (bit(x, i) || i == c),
{
}

proof fn lemma_rhs_xor(a: u8, b: u8)
    by (bit_vector)
    requires
        a <= 1,
        b <= 1,
    ensures
        (a ^ b) <= 1,
        ((a ^ b) == 1) == ((a == 1) != (b == 1)),
{
}

proof fn lemma_zero_prefix_step(a: u128, i: u128)
    by (bit_vector)
    requires
        i < 128,
        a & low128(i) == 0,
        !bit(a, i),
    ensures
        a & low128((i + 1) as u128) == 0,
{
}

proof fn lemma_low128_ends()
    by (bit_vector)
    ensures
        forall|a: u128| #[trigger] (a & low128(0)) == 0,
        forall|a: u128| #[trigger] (a & low128(128)) == a,
{
}

/// A word none of whose 128 bits is set is zero.
proof fn lemma_no_bits_zero(a: u128, n: u128)
    requires
        n <= 128,
        forall|i: u128| i < n ==> !#[trigger] bit(a, i),
    ensures
        a & low128(n) == 0,
    decreases n,
{
    if n == 0 {
        lemma_low128_ends();
    } else {
        lemma_no_bits_zero(a, (n - 1) as u128);
        lemma_zero_prefix_step(a, (n - 1) as u128);
    }
}

proof fn lemma_zero_bits(i: u128)
    by (bit_vector)
    requires
        i < 128,
    ensures
        !bit(0u128, i),
{
}

/// The inner product is linear in its first argument.
pub proof fn lemma_dot_xor(a: u128, b: u128, x: u128, n: nat)
    requires
        n <= 128,
    ensures
        dotn(a ^ b, x, n) == (dotn(a, x, n) != dotn(b, x, n)),
    decreases n,
{
    if n > 0 {
        lemma_dot_xor(a, b, x, (n - 1) as nat);
        lemma_bit_xor(a, b, (n - 1) as u128);
    }
}

/// If `a & x` has exactly the bit `c` set when `flag` holds and no bit
/// otherwise, the inner product is `flag`.
proof fn lemma_dot_single(a: u128, x: u128, c: u128, flag: bool, n: nat)
    requires
        n <= 128,
        c < 128,
        forall|i: u128| i < n ==> (bit(a, i) && bit(x, i)) == (i == c && flag),
    ensures
        dotn(a, x, n) == (flag && c < n),
    decreases n,
{
    if n > 0 {
        lemma_dot_single(a, x, c, flag, (n - 1) as nat);
        let i = (n - 1) as u128;
        assert((bit(a, i) && bit(x, i)) == (i == c && flag));
    }
}

/// Adding a satisfied equation to another leaves the latter's truth unchanged.
proof fn lemma_row_xor_sat(r: (u128, u8), p: (u128, u8), x: u128)
    requires
        r.1 <= 1,
        p.1 <= 1,
        row_sat(p, x),
    ensures
        row_sat(xor_row(r, p), x) == row_sat(r, x),
        xor_row(r, p).1 <= 1,
{
    lemma_dot_xor(r.0, p.0, x, 128);
    lemma_rhs_xor(r.1, p.1);
}

// ---- the elimination, step by step ---------------------------------------------

/// The first row at or after `from` whose coefficient has bit `col`, or
/// `m.len()` when there is none.
pub open spec fn first_with(m: Seq<(u128, u8)>, col: int, from: int) -> int
    decreases m.len() - from,
{
    if from >= m.len() {
        m.len() as int
    } else if bit(m[from].0, col as u128) {
        from
    } else {
        first_with(m, col, from + 1)
    }
}

/// Add the pivot row `rank` to every other row with bit `col`.
pub open spec fn clear_column(m: Seq<(u128, u8)>, rank: int, col: int) -> Seq<(u128, u8)> {
    Seq::new(
        m.len(),
        |j: int|
            if j != rank && bit(m[j].0, col as u128) {
                xor_row(m[j], m[rank])
            } else {
                m[j]
            },
    )
}

/// Gauss-Jordan elimination over the first `cols` columns: the system, the
/// pivot row of each column (`usize::MAX` for free columns) and the rank. For
/// each column, the first row at or after the rank with that bit becomes the
/// pivot row, is swapped up to the rank, and is added to every other row with
/// the bit.
pub open spec fn elim(m: Seq<(u128, u8)>, cols: nat) -> (Seq<(u128, u8)>, Seq<usize>, int)
    decreases cols,
{
    if cols == 0 {
        (m, Seq::new(128, |c: int| usize::MAX), 0)
    } else {
        let prev = elim(m, (cols - 1) as nat);
        let a = prev.0;
        let rank = prev.2;
        let col = cols - 1;
        let sel = first_with(a, col, rank);
        if sel < a.len() {
            let a1 = a.update(rank, a[sel]).update(sel, a[rank]);
            (clear_column(a1, rank, col), prev.1.update(col, rank as usize), rank + 1)
        } else {
            prev
        }
    }
}

/// The particular solution read off a reduced system over its first `cols`
/// columns: each pivot column takes its pivot row's right-hand side, every
/// free column is 0.
pub open spec fn read_bits(m: Seq<(u128, u8)>, pivot: Seq<usize>, cols: nat) -> u128
    decreases cols,
{
    if cols == 0 {
        0
    } else {
        let s = read_bits(m, pivot, (cols - 1) as nat);
        let c = cols - 1;
        if pivot[c] != usize::MAX && m[pivot[c] as int].1 == 1 {
            s | (1u128 << (c as u128))
        } else {
            s
        }
    }
}

/// The particular solution of the reduced system of `m`.
pub open spec fn particular(m: Seq<(u128, u8)>) -> u128 {
    read_bits(elim(m, 128).0, elim(m, 128).1, 128)
}

/// The reduced system of `m` has an equation `0 = 1`.
pub open spec fn conflicting(m: Seq<(u128, u8)>) -> bool {
    exists|k: int| 0 <= k < elim(m, 128).0.len() && elim(m, 128).0[k].0 == 0 && elim(m, 128).0[k].1 == 1
}

proof fn lemma_first_with(m: Seq<(u128, u8)>, col: int, from: int, sel: int)
    requires
        0 <= from <= sel <= m.len(),
        forall|j: int| from <= j < sel ==> !#[trigger] bit(m[j].0, col as u128),
        sel < m.len() ==> bit(m[sel].0, col as u128),
    ensures
        first_with(m, col, from) == sel,
    decreases sel - from,
{
    if from < sel {
        lemma_first_with(m, col, from + 1, sel);
    }
}

/// The reduced echelon form that [`eliminate`] leaves behind.
spec fn echelon(m: Seq<(u128, u8)>, pivot: Seq<usize>, rank: int, row_col: Seq<int>, cols: int) -> bool {
    &&& pivot.len() == 128
    &&& 0 <= rank <= m.len()
    &&& rank <= cols <= 128
    &&& row_col.len() == rank
    &&& forall|c: int|
        0 <= c < cols && pivot[c] != usize::MAX ==> {
            &&& pivot[c] < rank
            &&& bit(m[pivot[c] as int].0, c as u128)
            &&& forall|k: int|
                0 <= k < m.len() && k != pivot[c] ==> !#[trigger] bit(m[k].0, c as u128)
        }
    &&& forall|c: int|
        0 <= c < cols && pivot[c] == usize::MAX ==> forall|k: int|
            rank <= k < m.len() ==> !#[trigger] bit(m[k].0, c as u128)
    &&& forall|c: int| cols <= c < 128 ==> pivot[c] == usize::MAX
    &&& forall|k: int|
        0 <= k < rank ==> 0 <= #[trigger] row_col[k] < cols && pivot[row_col[k]] == k
    &&& forall|c: int|
        0 <= c < cols && pivot[c] != usize::MAX ==> row_col[#[trigger] pivot[c] as int] == c
}

spec fn equivalent(a: Seq<(u128, u8)>, b: Seq<(u128, u8)>) -> bool {
    forall|x: u128| sat_all(a, x) <==> sat_all(b, x)
}

/// Gauss-Jordan elimination over the 128 unknowns. Returns the reduced system,
/// the pivot row of each column (`usize::MAX` for free columns) and the rank.
fn eliminate(mat: Vec<(u128, u8)>) -> (res: (Vec<(u128, u8)>, Vec<usize>, usize, Ghost<Seq<int>>))
    ensures
        res.0.len() == mat.len(),
        echelon(res.0@, res.1@, res.2 as int, res.3@, 128),
        (res.0@, res.1@, res.2 as int) == elim(mat@, 128),
        rhs_are_bits(mat@) ==> rhs_are_bits(res.0@) && equivalent(mat@, res.0@),
{
    let ghost orig = mat@;
    let mut mat = mat;
    let n = mat.len();
    let mut pivot: Vec<usize> = vec![usize::MAX; 128];
    let mut rank: usize = 0;
    let ghost mut row_col: Seq<int> = Seq::empty();
    let mut col: usize = 0;
    assert(pivot@ =~= Seq::new(128, |c: int| usize::MAX));
    while col < 128
        invariant
            mat.len() == n,
            n == orig.len(),
            (mat@, pivot@, rank as int) == elim(orig, col as nat),
            echelon(mat@, pivot@, rank as int, row_col, col as int),
            rhs_are_bits(orig) ==> rhs_are_bits(mat@) && equivalent(orig, mat@),
        decreases 128 - col,
    {
        let mut sel = rank;
        while sel < n && (mat[sel].0 >> col) & 1 != 1
            invariant
                rank <= sel <= n,
                col < 128,
                mat.len() == n,
                forall|j: int| rank <= j < sel ==> !#[trigger] bit(mat@[j].0, col as u128),
            decreases n - sel,
        {
            sel = sel + 1;
        }
        proof {
            lemma_first_with(mat@, col as int, rank as int, sel as int);
        }
        if sel < n {
            let ghost m0 = mat@;
            // Bring the pivot row up to position `rank`.
            let a = mat[rank];
            let b = mat[sel];
            mat.set(rank, b);
            mat.set(sel, a);
            let ghost m1 = mat@;
            proof {
                assert forall|x: u128| sat_all(m0, x) <==> sat_all(m1, x) by {
                    if sat_all(m0, x) {
                        assert forall|i: int| 0 <= i < m1.len() implies #[trigger] row_sat(
                            m1[i],
                            x,
                        ) by {
                            if i == rank {
                                assert(row_sat(m0[sel as int], x));
                            } else if i == sel {
                                assert(row_sat(m0[rank as int], x));
                            } else {
                                assert(row_sat(m0[i], x));
                            }
                        }
                    }
                    if sat_all(m1, x) {
                        assert forall|i: int| 0 <= i < m0.len() implies #[trigger] row_sat(
                            m0[i],
                            x,
                        ) by {
                            if i == rank {
                                assert(row_sat(m1[sel as int], x));
                            } else if i == sel {
                                assert(row_sat(m1[rank as int], x));
                            } else {
                                assert(row_sat(m1[i], x));
                            }
                        }
                    }
                }
                if rhs_are_bits(orig) {
                    assert forall|i: int| 0 <= i < m1.len() implies #[trigger] m1[i].1 <= 1 by {
                        if i == rank {
                            assert(m0[sel as int].1 <= 1);
                        } else if i == sel {
                            assert(m0[rank as int].1 <= 1);
                        } else {
                            assert(m0[i].1 <= 1);
                        }
                    }
                }
                assert(bit(m1[rank as int].0, col as u128));
            }
            let p = mat[rank];
            // Clear the pivot column from every other row.
            let mut k: usize = 0;
            while k < n
                invariant
                    mat.len() == n,
                    rank < n,
                    col < 128,
                    k <= n,
                    mat@[rank as int] == p,
                    p == m1[rank as int],
                    m1.len() == n,
                    forall|j: int| k <= j < n ==> mat@[j] == m1[j],
                    forall|j: int|
                        0 <= j < k && j != rank ==> mat@[j] == (if bit(m1[j].0, col as u128) {
                            xor_row(m1[j], p)
                        } else {
                            m1[j]
                        }),
                decreases n - k,
            {
                if k != rank && (mat[k].0 >> col) & 1 == 1 {
                    let r = mat[k];
                    mat.set(k, (r.0 ^ p.0, r.1 ^ p.1));
                }
                k = k + 1;
            }
            let ghost m2 = mat@;
            assert(m2 =~= clear_column(m1, rank as int, col as int));
            proof {
                // Bits of the rows after the clearing pass.
                assert forall|j: int, c: int|
                    0 <= j < n && 0 <= c < 128 && j != rank implies #[trigger] bit(m2[j].0, c as u128)
                    == (if bit(m1[j].0, col as u128) {
                    bit(m1[j].0, c as u128) != bit(p.0, c as u128)
                } else {
                    bit(m1[j].0, c as u128)
                }) by {
                    lemma_bit_xor(m1[j].0, p.0, c as u128);
                }
                // Equivalence.
                if rhs_are_bits(orig) {
                    assert(p.1 <= 1);
                    assert forall|j: int| 0 <= j < n implies #[trigger] m2[j].1 <= 1 by {
                        assert(m1[j].1 <= 1);
                        if j != rank && bit(m1[j].0, col as u128) {
                            lemma_rhs_xor(m1[j].1, p.1);
                        }
                    }
                    assert forall|x: u128| sat_all(m1, x) <==> sat_all(m2, x) by {
                        if sat_all(m1, x) {
                            assert(row_sat(m1[rank as int], x));
                            assert forall|j: int| 0 <= j < n implies #[trigger] row_sat(m2[j], x) by {
                                assert(row_sat(m1[j], x));
                                if j != rank && bit(m1[j].0, col as u128) {
                                    assert(m1[j].1 <= 1);
                                    lemma_row_xor_sat(m1[j], p, x);
                                }
                            }
                        }
                        if sat_all(m2, x) {
                            assert(row_sat(m2[rank as int], x));
                            assert forall|j: int| 0 <= j < n implies #[trigger] row_sat(m1[j], x) by {
                                assert(row_sat(m2[j], x));
                                if j != rank && bit(m1[j].0, col as u128) {
                                    assert(m1[j].1 <= 1);
                                    lemma_row_xor_sat(m1[j], p, x);
                                }
                            }
                        }
                    }
                }
            }
            pivot.set(col, rank);
            proof {
                row_col = row_col.push(col as int);
                let pv = pivot@;
                // The echelon shape extends to column `col`.
                assert forall|c: int|
                    0 <= c < col + 1 && pv[c] != usize::MAX implies {
                    &&& pv[c] < rank + 1
                    &&& bit(m2[pv[c] as int].0, c as u128)
                    &&& forall|k: int|
                        0 <= k < m2.len() && k != pv[c] ==> !#[trigger] bit(m2[k].0, c as u128)
                } by {
                    if c < col {
                        let pr = pv[c] as int;
                        assert(pr < rank);
                        assert(!bit(m0[rank as int].0, c as u128));
                        assert(!bit(m0[sel as int].0, c as u128));
                        assert(!bit(p.0, c as u128));
                        assert(bit(m0[pr].0, c as u128));
                        assert forall|k: int|
                            0 <= k < m2.len() && k != pv[c] implies !#[trigger] bit(
                            m2[k].0,
                            c as u128,
                        ) by {
                            if k != rank {
                                assert(bit(m2[k].0, c as u128) == (if bit(m1[k].0, col as u128) {
                                    bit(m1[k].0, c as u128) != bit(p.0, c as u128)
                                } else {
                                    bit(m1[k].0, c as u128)
                                }));
                                if k == sel {
                                    assert(m1[k] == m0[rank as int]);
                                } else {
                                    assert(m1[k] == m0[k]);
                                }
                            }
                        }
                        assert(bit(m2[pr].0, c as u128) == (if bit(m1[pr].0, col as u128) {
                            bit(m1[pr].0, c as u128) != bit(p.0, c as u128)
                        } else {
                            bit(m1[pr].0, c as u128)
                        }));
                    } else {
                        assert(c == col);
                        assert forall|k: int|
                            0 <= k < m2.len() && k != pv[c] implies !#[trigger] bit(
                            m2[k].0,
                            c as u128,
                        ) by {
                            assert(bit(m2[k].0, c as u128) == (if bit(m1[k].0, col as u128) {
                                bit(m1[k].0, c as u128) != bit(p.0, c as u128)
                            } else {
                                bit(m1[k].0, c as u128)
                            }));
                        }
                    }
                }
                assert forall|c: int|
                    0 <= c < col + 1 && pv[c] == usize::MAX implies forall|k: int|
                    rank + 1 <= k < m2.len() ==> !#[trigger] bit(m2[k].0, c as u128) by {
                    assert(c < col);
                    assert forall|k: int| rank + 1 <= k < m2.len() implies !#[trigger] bit(
                        m2[k].0,
                        c as u128,
                    ) by {
                        assert(!bit(m0[sel as int].0, c as u128));
                        assert(!bit(p.0, c as u128));
                        assert(bit(m2[k].0, c as u128) == (if bit(m1[k].0, col as u128) {
                            bit(m1[k].0, c as u128) != bit(p.0, c as u128)
                        } else {
                            bit(m1[k].0, c as u128)
                        }));
                        if k == sel {
                            assert(m1[k] == m0[rank as int]);
                        } else {
                            assert(m1[k] == m0[k]);
                        }
                    }
                }
                assert forall|k: int|
                    0 <= k < rank + 1 implies 0 <= #[trigger] row_col[k] < col + 1 && pv[row_col[k]]
                    == k by {
                    if k < rank {
                        assert(pv[row_col[k]] == pivot@[row_col[k]]);
                    }
                }
                assert forall|c: int|
                    0 <= c < col + 1 && pv[c] != usize::MAX implies row_col[#[trigger] pv[c] as int]
                    == c by {}
            }
            rank = rank + 1;
        } else {
            proof {
                let pv = pivot@;
                assert forall|c: int|
                    0 <= c < col + 1 && pv[c] == usize::MAX implies forall|k: int|
                    rank <= k < mat@.len() ==> !#[trigger] bit(mat@[k].0, c as u128) by {}
            }
        }
        col = col + 1;
    }
    (mat, pivot, rank, Ghost(row_col))
}

/// Read the particular solution off a reduced system: each pivot column takes
/// its pivot row's right-hand side, every free column is 0.
fn read_solution(m: &Vec<(u128, u8)>, pivot: &Vec<usize>, rank: usize, row_col: Ghost<Seq<int>>) -> (sol: u128)
    requires
        echelon(m@, pivot@, rank as int, row_col@, 128),
    ensures
        forall|k: int| 0 <= k < rank ==> #[trigger] row_sat(m@[k], sol),
        sol == read_bits(m@, pivot@, 128),
{
    let mut sol: u128 = 0;
    let mut col: usize = 0;
    proof {
        assert forall|c: u128| c < 128 implies !#[trigger] bit(sol, c) by {
            lemma_zero_bits(c);
        }
    }
    while col < 128
        invariant
            echelon(m@, pivot@, rank as int, row_col@, 128),
            col <= 128,
            forall|c: u128|
                c < 128 ==> #[trigger] bit(sol, c) == (c < col && pivot@[c as int] != usize::MAX
                    && m@[pivot@[c as int] as int].1 == 1),
            sol == read_bits(m@, pivot@, col as nat),
        decreases 128 - col,
    {
        let pr = pivot[col];
        if pr != usize::MAX && m[pr].1 == 1 {
            proof {
                assert forall|c: u128| c < 128 implies #[trigger] bit(sol | (1u128 << (col as u128)), c) == (c
                    < col + 1 && pivot@[c as int] != usize::MAX && m@[pivot@[c as int] as int].1
                    == 1) by {
                    lemma_bit_or_single(sol, col as u128, c);
                }
            }
            sol = sol | (1u128 << col);
        }
        col = col + 1;
    }
    proof {
        assert forall|k: int| 0 <= k < rank implies #[trigger] row_sat(m@[k], sol) by {
            let c = row_col@[k];
            let flag = m@[k].1 == 1;
            assert forall|i: u128| i < 128 implies (bit(m@[k].0, i) && bit(sol, i)) == (i == c as u128
                && flag) by {
                if i != c as u128 && pivot@[i as int] != usize::MAX {
                    assert(row_col@[pivot@[i as int] as int] == i);
                    assert(pivot@[i as int] != k);
                }
            }
            lemma_dot_single(m@[k].0, sol, c as u128, flag, 128);
        }
    }
    sol
}

/// Rows past the rank of a reduced system have an all-zero coefficient.
proof fn lemma_tail_rows_zero(m: Seq<(u128, u8)>, pivot: Seq<usize>, rank: int, row_col: Seq<int>, k: int)
    requires
        echelon(m, pivot, rank, row_col, 128),
        rank <= k < m.len(),
    ensures
        m[k].0 == 0,
        forall|x: u128| !dot(m[k].0, x),
{
    assert forall|i: u128| i < 128 implies !#[trigger] bit(m[k].0, i) by {
        let c = i as int;
        assert(c as u128 == i);
        if pivot[c] != usize::MAX {
            assert(pivot[c] < rank);
            assert(k != pivot[c]);
            assert(!bit(m[k].0, c as u128));
        } else {
            assert(!bit(m[k].0, c as u128));
        }
    }
    lemma_no_bits_zero(m[k].0, 128);
    lemma_low128_ends();
    assert forall|x: u128| !dot(m[k].0, x) by {
        assert forall|i: u128| i < 128 implies (bit(m[k].0, i) && bit(x, i)) == (i == 0 && false) by {}
        lemma_dot_single(m[k].0, x, 0, false, 128);
    }
}

/// A zero equation with right-hand side 1 has no solution.
proof fn lemma_zero_row_unsat(r: (u128, u8), x: u128)
    requires
        r.0 == 0,
        r.1 == 1,
    ensures
        !row_sat(r, x),
{
    assert forall|i: u128| i < 128 implies (bit(r.0, i) && bit(x, i)) == (i == 0 && false) by {
        lemma_zero_bits(i);
    }
    lemma_dot_single(r.0, x, 0, false, 128);
}

/// Solve a system over 128 unknowns. Returns a seed satisfying every equation
/// (bit i = unknown i; free unknowns are 0), or `None` exactly when the
/// equations are inconsistent.
pub fn solve_128(mat: Vec<(u128, u8)>) -> (r: Option<u128>)
    ensures
        r == (if conflicting(mat@) {
            None
        } else {
            Some(particular(mat@))
        }),
        rhs_are_bits(mat@) ==> (r is Some <==> consistent(mat@)),
        rhs_are_bits(mat@) ==> (r matches Some(x) ==> sat_all(mat@, x)),
{
    let ghost orig = mat@;
    let (m, pivot, rank, row_col) = eliminate(mat);
    let n = m.len();
    let mut k: usize = 0;
    while k < n
        invariant
            n == m.len(),
            k <= n,
            orig == mat@,
            rhs_are_bits(orig) ==> rhs_are_bits(m@) && equivalent(orig, m@),
            forall|j: int| 0 <= j < k ==> !(#[trigger] m@[j].0 == 0 && m@[j].1 == 1),
            (m@, pivot@, rank as int) == elim(orig, 128),
        decreases n - k,
    {
        if m[k].0 == 0 && m[k].1 == 1 {
            proof {
                assert(elim(orig, 128).0 == m@);
                assert(elim(orig, 128).0[k as int].0 == 0 && elim(orig, 128).0[k as int].1 == 1);
                assert(conflicting(orig));
                if rhs_are_bits(orig) {
                    assert forall|x: u128| !sat_all(orig, x) by {
                        lemma_zero_row_unsat(m@[k as int], x);
                        assert(!row_sat(m@[k as int], x));
                        assert(!sat_all(m@, x));
                    }
                    if consistent(orig) {
                        let x = choose|x: u128| sat_all(orig, x);
                        assert(sat_all(orig, x));
                    }
                    assert(!consistent(orig));
                }
                assert(rhs_are_bits(orig) ==> !consistent(orig));
            }
            return None;
        }
        k = k + 1;
    }
    let sol = read_solution(&m, &pivot, rank, row_col);
    proof {
        assert(!conflicting(orig));
        if rhs_are_bits(orig) {
            assert forall|j: int| 0 <= j < n implies #[trigger] row_sat(m@[j], sol) by {
                if j >= rank {
                    lemma_tail_rows_zero(m@, pivot@, rank as int, row_col@, j);
                    assert(m@[j].1 <= 1);
                }
            }
            assert(sat_all(m@, sol));
            assert(sat_all(orig, sol));
        }
    }
    Some(sol)
}

/// Like [`solve_128`], but ignores inconsistent equations and always returns the
/// particular solution of the reduced system (used for fixed-point iteration
/// where some right-hand sides may be wrong). When the system is consistent the
/// result satisfies it.
pub fn solve_128_any(mat: Vec<(u128, u8)>) -> (sol: u128)
    ensures
        sol == particular(mat@),
        rhs_are_bits(mat@) && consistent(mat@) ==> sat_all(mat@, sol),
{
    let ghost orig = mat@;
    let (m, pivot, rank, row_col) = eliminate(mat);
    let sol = read_solution(&m, &pivot, rank, row_col);
    proof {
        if rhs_are_bits(orig) && consistent(orig) {
            let x0 = choose|x: u128| sat_all(orig, x);
            assert(sat_all(m@, x0));
            assert forall|j: int| 0 <= j < m@.len() implies #[trigger] row_sat(m@[j], sol) by {
                if j >= rank {
                    lemma_tail_rows_zero(m@, pivot@, rank as int, row_col@, j);
                    assert(row_sat(m@[j], x0));
                    assert(m@[j].1 <= 1);
                }
            }
            assert(sat_all(m@, sol));
        }
    }
    sol
}

} // verus!
