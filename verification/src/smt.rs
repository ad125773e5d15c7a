//! The text exchanged with an SMT solver: the scripts that ask it for an
//! xorshift128+ (or LCG) state behind observed outputs, and the reading of the
//! model it answers with.
use vstd::prelude::*;
use vstd::string::StringSliceAdditionalSpecFns;
use crate::sample::{contains, has, occurs, occurs_at};
use crate::engines::v8::{iterate_with, step_with};
use crate::prng::xorshift128plus::XorShift128Plus;
use vstd::arithmetic::power2::pow2;

verus! {

// ---- reading the solver's answer --------------------------------------------

/// `b` is an ASCII hexadecimal digit.
pub open spec fn is_hex(b: u8) -> bool {
    (48 <= b <= 57) || (65 <= b <= 70) || (97 <= b <= 102)
}

/// The value of a hexadecimal digit.
pub open spec fn hex_digit(b: u8) -> nat {
    if 48 <= b <= 57 {
        (b - 48) as nat
    } else if 65 <= b <= 70 {
        (b - 55) as nat
    } else {
        (b - 87) as nat
    }
}

/// The length of the run of hexadecimal digits starting at `j`.
pub open spec fn hex_run(t: Seq<u8>, j: int) -> nat
    decreases t.len() - j,
{
    if j < 0 || j >= t.len() || !is_hex(t[j]) {
        0
    } else {
        1 + hex_run(t, j + 1)
    }
}

/// The value of the `k` hexadecimal digits starting at `j`.
pub open spec fn hex_value(t: Seq<u8>, j: int, k: nat) -> nat
    decreases k,
{
    if k == 0 {
        0
    } else {
        hex_value(t, j, (k - 1) as nat) * 16 + hex_digit(t[j + k - 1])
    }
}

/// The numbers written after each `#x` marker from index `i` on: the run of
/// hexadecimal digits that follows the marker, when it is non-empty and fits in
/// 64 bits (other runs are skipped).
pub open spec fn hex_values_from(t: Seq<u8>, i: int) -> Seq<u64>
    decreases t.len() - i,
{
    if i < 0 || i + 1 >= t.len() {
        Seq::empty()
    } else if t[i] == 35 && t[i + 1] == 120 {
        let k = hex_run(t, i + 2);
        let rest = hex_values_from(t, i + 2);
        if k >= 1 && hex_value(t, i + 2, k) <= u64::MAX {
            seq![hex_value(t, i + 2, k) as u64] + rest
        } else {
            rest
        }
    } else {
        hex_values_from(t, i + 1)
    }
}

proof fn lemma_hex_run_bound(t: Seq<u8>, j: int)
    requires
        0 <= j,
    ensures
        j + hex_run(t, j) <= if j <= t.len() { t.len() as int } else { j },
        forall|m: int| j <= m < j + hex_run(t, j) ==> is_hex(#[trigger] t[m]),
        j + hex_run(t, j) < t.len() ==> !is_hex(t[j + hex_run(t, j)]),
    decreases t.len() - j,
{
    if j < t.len() && is_hex(t[j]) {
        lemma_hex_run_bound(t, j + 1);
    }
}

/// Read the hexadecimal run after a marker: its end and, when it fits in 64
/// bits, its value.
fn read_hex(t: &[u8], j: usize) -> (r: (usize, Option<u64>))
    requires
        j <= t.len(),
    ensures
        r.0 == j + hex_run(t@, j as int),
        r.1 matches Some(v) ==> v == hex_value(t@, j as int, hex_run(t@, j as int)),
        r.1 is None <==> hex_value(t@, j as int, hex_run(t@, j as int)) > u64::MAX,
{
    proof {
        lemma_hex_run_bound(t@, j as int);
    }
    let mut e = j;
    let mut val: u64 = 0;
    let mut over = false;
    while e < t.len() && ((48 <= t[e] && t[e] <= 57) || (65 <= t[e] && t[e] <= 70) || (97 <= t[e] && t[e] <= 102))
        invariant
            j <= e <= t.len(),
            e <= j + hex_run(t@, j as int),
            j + hex_run(t@, j as int) <= t.len(),
            forall|m: int| j <= m < j + hex_run(t@, j as int) ==> is_hex(#[trigger] t@[m]),
            j + hex_run(t@, j as int) < t.len() ==> !is_hex(t@[j + hex_run(t@, j as int)]),
            !over ==> val == hex_value(t@, j as int, (e - j) as nat),
            over ==> hex_value(t@, j as int, (e - j) as nat) > u64::MAX,
        decreases t.len() - e,
    {
        let b = t[e];
        let d: u64 = if b <= 57 {
            (b - 48) as u64
        } else if b <= 70 {
            (b - 55) as u64
        } else {
            (b - 87) as u64
        };
        proof {
            assert(hex_value(t@, j as int, (e + 1 - j) as nat) == hex_value(t@, j as int, (e - j) as nat) * 16
                + hex_digit(t@[e as int]));
        }
        if !over {
            if val > (u64::MAX - d) / 16 {
                over = true;
            } else {
                val = val * 16 + d;
            }
        }
        e = e + 1;
    }
    proof {
        if e < j + hex_run(t@, j as int) {
            assert(is_hex(t@[e as int]));
        }
    }
    if over {
        (e, None)
    } else {
        (e, Some(val))
    }
}

/// The numbers a solver's model writes as `#x…` bit-vector literals, in order.
pub fn hex_values(text: &[u8]) -> (r: Vec<u64>)
    ensures
        r@ == hex_values_from(text@, 0),
{
    let mut out: Vec<u64> = Vec::new();
    let mut i: usize = 0;
    while i < text.len() && text.len() - i > 1
        invariant
            i <= text.len(),
            out@ + hex_values_from(text@, i as int) == hex_values_from(text@, 0),
        decreases text.len() - i,
    {
        if text[i] == 35 && text[i + 1] == 120 {
            let ghost before = out@;
            let (end, v) = read_hex(text, i + 2);
            if end > i + 2 {
                if let Some(x) = v {
                    out.push(x);
                }
            }
            proof {
                let rest = hex_values_from(text@, i + 2);
                let k = hex_run(text@, i + 2);
                if k >= 1 && hex_value(text@, i + 2, k) <= u64::MAX {
                    assert(before + (seq![hex_value(text@, i + 2, k) as u64] + rest) =~= out@ + rest);
                } else {
                    assert(out@ == before);
                }
            }
            i = i + 2;
        } else {
            i = i + 1;
        }
    }
    proof {
        assert(hex_values_from(text@, i as int) == Seq::<u64>::empty());
        assert(out@ + Seq::<u64>::empty() =~= out@);
    }
    out
}

/// The solver answered `sat`: its reply mentions `sat` and does not open with
/// `unsat`.
pub open spec fn said_sat(text: Seq<u8>) -> bool {
    has(text, "sat".spec_bytes()) && !occurs_at(text, "unsat".spec_bytes(), 0)
}

/// The state `(s0, s1)` a solver's reply assigns: its first two `#x` numbers,
/// when it answered `sat` and wrote at least two.
pub fn model_state(text: &[u8]) -> (r: Option<(u64, u64)>)
    ensures
        r is Some <==> said_sat(text@) && hex_values_from(text@, 0).len() >= 2,
        r matches Some(st) ==> st.0 == hex_values_from(text@, 0)[0] && st.1 == hex_values_from(text@, 0)[1],
{
    if !contains(text, "sat".as_bytes()) || occurs(text, "unsat".as_bytes(), 0) {
        return None;
    }
    let h = hex_values(text);
    if h.len() < 2 {
        None
    } else {
        Some((h[0], h[1]))
    }
}


/// The length of the run of decimal digits starting at `j`.
pub open spec fn dec_run(t: Seq<u8>, j: int) -> nat
    decreases t.len() - j,
{
    if j < 0 || j >= t.len() || !(48 <= t[j] <= 57) {
        0
    } else {
        1 + dec_run(t, j + 1)
    }
}

/// The value of the `k` decimal digits starting at `j`.
pub open spec fn dec_value(t: Seq<u8>, j: int, k: nat) -> nat
    decreases k,
{
    if k == 0 {
        0
    } else {
        dec_value(t, j, (k - 1) as nat) * 10 + (t[j + k - 1] - 48) as nat
    }
}

/// `(_ bv`: how a solver writes a bit-vector literal in decimal.
pub open spec fn bv_marker(t: Seq<u8>, i: int) -> bool {
    0 <= i && i + 5 <= t.len() && t[i] == 40 && t[i + 1] == 95 && t[i + 2] == 32 && t[i + 3] == 98
        && t[i + 4] == 118
}

/// The numbers written after each `(_ bv` marker from index `i` on: the run of
/// decimal digits that follows it, when it is non-empty and fits in 64 bits
/// (other runs are skipped).
pub open spec fn dec_values_from(t: Seq<u8>, i: int) -> Seq<u64>
    decreases t.len() - i,
{
    if i < 0 || i + 5 > t.len() {
        Seq::empty()
    } else if bv_marker(t, i) {
        let k = dec_run(t, i + 5);
        let rest = dec_values_from(t, i + 5);
        if k >= 1 && dec_value(t, i + 5, k) <= u64::MAX {
            seq![dec_value(t, i + 5, k) as u64] + rest
        } else {
            rest
        }
    } else {
        dec_values_from(t, i + 1)
    }
}

proof fn lemma_dec_run_bound(t: Seq<u8>, j: int)
    requires
        0 <= j,
    ensures
        j + dec_run(t, j) <= if j <= t.len() { t.len() as int } else { j },
        forall|m: int| j <= m < j + dec_run(t, j) ==> 48 <= #[trigger] t[m] <= 57,
        j + dec_run(t, j) < t.len() ==> !(48 <= t[j + dec_run(t, j)] <= 57),
    decreases t.len() - j,
{
    if j < t.len() && 48 <= t[j] <= 57 {
        lemma_dec_run_bound(t, j + 1);
    }
}

/// Read the decimal run after a marker: its end and, when it fits in 64 bits,
/// its value.
fn read_dec(t: &[u8], j: usize) -> (r: (usize, Option<u64>))
    requires
        j <= t.len(),
    ensures
        r.0 == j + dec_run(t@, j as int),
        r.1 matches Some(v) ==> v == dec_value(t@, j as int, dec_run(t@, j as int)),
        r.1 is None <==> dec_value(t@, j as int, dec_run(t@, j as int)) > u64::MAX,
{
    proof {
        lemma_dec_run_bound(t@, j as int);
    }
    let mut e = j;
    let mut val: u64 = 0;
    let mut over = false;
    while e < t.len() && 48 <= t[e] && t[e] <= 57
        invariant
            j <= e <= t.len(),
            e <= j + dec_run(t@, j as int),
            j + dec_run(t@, j as int) <= t.len(),
            forall|m: int| j <= m < j + dec_run(t@, j as int) ==> 48 <= #[trigger] t@[m] <= 57,
            j + dec_run(t@, j as int) < t.len() ==> !(48 <= t@[j + dec_run(t@, j as int)] <= 57),
            !over ==> val == dec_value(t@, j as int, (e - j) as nat),
            over ==> dec_value(t@, j as int, (e - j) as nat) > u64::MAX,
        decreases t.len() - e,
    {
        let d = (t[e] - 48) as u64;
        proof {
            assert(dec_value(t@, j as int, (e + 1 - j) as nat) == dec_value(t@, j as int, (e - j) as nat) * 10
                + (t@[e as int] - 48) as nat);
        }
        if !over {
            if val > (u64::MAX - d) / 10 {
                over = true;
            } else {
                val = val * 10 + d;
            }
        }
        e = e + 1;
    }
    proof {
        if e < j + dec_run(t@, j as int) {
            assert(48 <= t@[e as int] <= 57);
        }
    }
    if over {
        (e, None)
    } else {
        (e, Some(val))
    }
}

/// The numbers a solver's model writes as `(_ bvN …)` decimal literals, in
/// order.
pub fn dec_values(text: &[u8]) -> (r: Vec<u64>)
    ensures
        r@ == dec_values_from(text@, 0),
{
    let mut out: Vec<u64> = Vec::new();
    let mut i: usize = 0;
    while i < text.len() && text.len() - i >= 5
        invariant
            i <= text.len(),
            out@ + dec_values_from(text@, i as int) == dec_values_from(text@, 0),
        decreases text.len() - i,
    {
        if text[i] == 40 && text[i + 1] == 95 && text[i + 2] == 32 && text[i + 3] == 98 && text[i + 4]
            == 118 {
            let ghost before = out@;
            let (end, v) = read_dec(text, i + 5);
            if end > i + 5 {
                if let Some(x) = v {
                    out.push(x);
                }
            }
            proof {
                let rest = dec_values_from(text@, i + 5);
                let k = dec_run(text@, i + 5);
                if k >= 1 && dec_value(text@, i + 5, k) <= u64::MAX {
                    assert(before + (seq![dec_value(text@, i + 5, k) as u64] + rest) =~= out@ + rest);
                } else {
                    assert(out@ == before);
                }
            }
            i = i + 5;
        } else {
            i = i + 1;
        }
    }
    proof {
        assert(dec_values_from(text@, i as int) == Seq::<u64>::empty());
        assert(out@ + Seq::<u64>::empty() =~= out@);
    }
    out
}

/// The state and shift constants a solver's reply assigns when the shifts were
/// left free: the first two `#x` numbers are the state; the shifts are the next
/// three `#x` numbers, or else the last three decimal literals. The shifts
/// keep their low 32 bits.
pub open spec fn shift_model_spec(text: Seq<u8>) -> Option<(u64, u64, u32, u32, u32)> {
    let h = hex_values_from(text, 0);
    let d = dec_values_from(text, 0);
    if !said_sat(text) || h.len() < 2 {
        None
    } else if h.len() >= 5 {
        Some((h[0], h[1], h[2] as u32, h[3] as u32, h[4] as u32))
    } else if d.len() >= 3 {
        Some((h[0], h[1], d[d.len() - 3] as u32, d[d.len() - 2] as u32, d[d.len() - 1] as u32))
    } else {
        None
    }
}

/// The state and shifts of a reply to a free-shift question.
pub fn shift_model(text: &[u8]) -> (r: Option<(u64, u64, u32, u32, u32)>)
    ensures
        r == shift_model_spec(text@),
{
    if !contains(text, "sat".as_bytes()) || occurs(text, "unsat".as_bytes(), 0) {
        return None;
    }
    let h = hex_values(text);
    if h.len() < 2 {
        return None;
    }
    if h.len() >= 5 {
        return Some((h[0], h[1], h[2] as u32, h[3] as u32, h[4] as u32));
    }
    let d = dec_values(text);
    let n = d.len();
    if n >= 3 {
        Some((h[0], h[1], d[n - 3] as u32, d[n - 2] as u32, d[n - 1] as u32))
    } else {
        None
    }
}

// ---- writing the question ------------------------------------------------------

/// The decimal digits of `n`.
pub open spec fn dec(n: nat) -> Seq<u8>
    decreases n,
{
    if n < 10 {
        seq![(48 + n) as u8]
    } else {
        dec(n / 10).push((48 + n % 10) as u8)
    }
}

/// `n` in decimal.
pub fn decimal(n: u64) -> (r: Vec<u8>)
    ensures
        r@ == dec(n as nat),
    decreases n,
{
    if n < 10 {
        vec![(48 + n) as u8]
    } else {
        let mut r = decimal(n / 10);
        r.push((48 + n % 10) as u8);
        r
    }
}

/// Append the bytes of `s`.
fn push_str(out: &mut Vec<u8>, s: &str)
    ensures
        final(out)@ == old(out)@ + s.spec_bytes(),
{
    let b = s.as_bytes();
    let mut i: usize = 0;
    while i < b.len()
        invariant
            i <= b.len(),
            b@ == s.spec_bytes(),
            out@ == old(out)@ + b@.subrange(0, i as int),
        decreases b.len() - i,
    {
        out.push(b[i]);
        i = i + 1;
        proof {
            assert(out@ =~= old(out)@ + b@.subrange(0, i as int));
        }
    }
    proof {
        assert(b@.subrange(0, b@.len() as int) =~= b@);
    }
}

/// Append `n` in decimal.
fn push_dec(out: &mut Vec<u8>, n: u64)
    ensures
        final(out)@ == old(out)@ + dec(n as nat),
{
    let d = decimal(n);
    let mut i: usize = 0;
    while i < d.len()
        invariant
            i <= d.len(),
            d@ == dec(n as nat),
            out@ == old(out)@ + d@.subrange(0, i as int),
        decreases d.len() - i,
    {
        out.push(d[i]);
        i = i + 1;
        proof {
            assert(out@ =~= old(out)@ + d@.subrange(0, i as int));
        }
    }
    proof {
        assert(d@.subrange(0, d@.len() as int) =~= d@);
    }
}

/// The solver's name for the `j`-th state word: `s0`, `s1`, then `F_0`,
/// `F_1`, … for the words each step makes.
pub open spec fn word(j: nat) -> Seq<u8> {
    if j == 0 {
        "s0".spec_bytes()
    } else if j == 1 {
        "s1".spec_bytes()
    } else {
        "F_".spec_bytes() + dec((j - 2) as nat)
    }
}

/// The shift amounts of an xorshift128+ question: known numbers, or left to
/// the solver as the unknowns `sa`, `sb`, `sc` (each in `1..=63`).
#[derive(Clone, Copy, Debug, PartialEq, Eq, Structural)]
pub enum Shifts {
    Fixed(u32, u32, u32),
    Free,
}

/// An unknown the question declares: state word `j` (`s0`, `s1`, `F_0`, …),
/// step `i`'s scrambled words `t1_i` and `t2_i`, or free shift `k` (`sa`,
/// `sb`, `sc`).
pub enum Unknown {
    Word(nat),
    T1(nat),
    T2(nat),
    Shift(nat),
}

/// A bit-vector term of the question.
pub enum Term {
    Var(Unknown),
    /// The literal `(_ bv v w)`.
    Lit(nat, nat),
    Xor(Box<Term>, Box<Term>),
    Shl(Box<Term>, Box<Term>),
    Lshr(Box<Term>, Box<Term>),
    Add(Box<Term>, Box<Term>),
    /// Bits `hi ..= lo` of a term.
    Extract(nat, nat, Box<Term>),
}

/// The solver's name for an unknown.
pub open spec fn unknown_name(u: Unknown) -> Seq<u8> {
    match u {
        Unknown::Word(j) => word(j),
        Unknown::T1(i) => "t1_".spec_bytes() + dec(i),
        Unknown::T2(i) => "t2_".spec_bytes() + dec(i),
        Unknown::Shift(k) => if k == 0 {
            "sa".spec_bytes()
        } else if k == 1 {
            "sb".spec_bytes()
        } else {
            "sc".spec_bytes()
        },
    }
}

/// A term written in SMT-LIB.
pub open spec fn render(t: Term) -> Seq<u8>
    decreases t,
{
    match t {
        Term::Var(u) => unknown_name(u),
        Term::Lit(v, w) => "(_ bv".spec_bytes() + dec(v) + " ".spec_bytes() + dec(w) + ")".spec_bytes(),
        Term::Xor(a, b) => "(bvxor ".spec_bytes() + render(*a) + " ".spec_bytes() + render(*b) + ")".spec_bytes(),
        Term::Shl(a, b) => "(bvshl ".spec_bytes() + render(*a) + " ".spec_bytes() + render(*b) + ")".spec_bytes(),
        Term::Lshr(a, b) => "(bvlshr ".spec_bytes() + render(*a) + " ".spec_bytes() + render(*b) + ")".spec_bytes(),
        Term::Add(a, b) => "(bvadd ".spec_bytes() + render(*a) + " ".spec_bytes() + render(*b) + ")".spec_bytes(),
        Term::Extract(hi, lo, a) => "((_ extract ".spec_bytes() + dec(hi) + " ".spec_bytes() + dec(lo) + ") ".spec_bytes()
            + render(*a) + ")".spec_bytes(),
    }
}

/// The value of a term when each unknown `u` is `env(u)`: 64-bit words,
/// shifts by 64 or more give 0, an extract gives the bits it names.
pub open spec fn eval(t: Term, env: spec_fn(Unknown) -> u64) -> int
    decreases t,
{
    match t {
        Term::Var(u) => env(u) as int,
        Term::Lit(v, w) => v as int,
        Term::Xor(a, b) => ((eval(*a, env) as u64) ^ (eval(*b, env) as u64)) as int,
        Term::Shl(a, b) => if 0 <= eval(*b, env) < 64 {
            ((eval(*a, env) as u64) << (eval(*b, env) as u64)) as int
        } else {
            0
        },
        Term::Lshr(a, b) => if 0 <= eval(*b, env) < 64 {
            ((eval(*a, env) as u64) >> (eval(*b, env) as u64)) as int
        } else {
            0
        },
        Term::Add(a, b) => (eval(*a, env) as u64).wrapping_add(eval(*b, env) as u64) as int,
        Term::Extract(hi, lo, a) => (eval(*a, env) / (pow2(lo) as int)) % (pow2((hi + 1 - lo) as nat) as int),
    }
}

/// `(declare-const u (_ BitVec 64))`.
pub open spec fn declare_text(u: Unknown) -> Seq<u8> {
    "(declare-const ".spec_bytes() + unknown_name(u) + " (_ BitVec 64))".spec_bytes()
}

/// `(assert (= lhs rhs))` and a line break.
pub open spec fn assert_text(e: (Term, Term)) -> Seq<u8> {
    "(assert (= ".spec_bytes() + render(e.0) + " ".spec_bytes() + render(e.1) + "))\n".spec_bytes()
}

/// The term for shift `which` (0, 1 or 2): the fixed amount, or the free
/// unknown.
pub open spec fn shift_tm(shifts: Shifts, which: nat) -> Term {
    match shifts {
        Shifts::Fixed(a, b, c) => Term::Lit(
            (if which == 0 {
                a
            } else if which == 1 {
                b
            } else {
                c
            }) as nat,
            64,
        ),
        Shifts::Free => Term::Var(Unknown::Shift(which)),
    }
}

/// The text for shift `which`.
pub open spec fn shift_term(shifts: Shifts, which: nat) -> Seq<u8> {
    render(shift_tm(shifts, which))
}

/// What output `i` reads: the sum of the new state words, or the new `s0`.
pub open spec fn out_tm(i: nat, sum: bool) -> Term {
    if sum {
        Term::Add(Box::new(Term::Var(Unknown::Word(i + 1))), Box::new(Term::Var(Unknown::Word(i + 2))))
    } else {
        Term::Var(Unknown::Word(i + 1))
    }
}

/// The text for what output `i` reads.
pub open spec fn output_term(i: nat, sum: bool) -> Seq<u8> {
    render(out_tm(i, sum))
}

/// Step `i`'s first equation: `t1_i = x ^ (x << a)`, `x` the step's old `s0`
/// (word `i`).
pub open spec fn eq1(i: nat, shifts: Shifts) -> (Term, Term) {
    let x = Term::Var(Unknown::Word(i));
    (Term::Var(Unknown::T1(i)), Term::Xor(Box::new(x), Box::new(Term::Shl(Box::new(x), Box::new(shift_tm(shifts, 0))))))
}

/// Step `i`'s second equation: `t2_i = t1_i ^ (t1_i >> b)`.
pub open spec fn eq2(i: nat, shifts: Shifts) -> (Term, Term) {
    let t1 = Term::Var(Unknown::T1(i));
    (Term::Var(Unknown::T2(i)), Term::Xor(Box::new(t1), Box::new(Term::Lshr(Box::new(t1), Box::new(shift_tm(shifts, 1))))))
}

/// Step `i`'s third equation: the new word `i + 2` is `t2_i ^ y ^ (y >> c)`,
/// `y` the step's old `s1` (word `i + 1`).
pub open spec fn eq3(i: nat, shifts: Shifts) -> (Term, Term) {
    let y = Term::Var(Unknown::Word(i + 1));
    (
        Term::Var(Unknown::Word(i + 2)),
        Term::Xor(
            Box::new(Term::Xor(Box::new(Term::Var(Unknown::T2(i))), Box::new(y))),
            Box::new(Term::Lshr(Box::new(y), Box::new(shift_tm(shifts, 2)))),
        ),
    )
}

/// Step `i`'s output equation: the low `width` bits of what output `i` reads
/// are `o`.
pub open spec fn eq4(i: nat, o: u64, width: nat, sum: bool) -> (Term, Term) {
    (Term::Extract((width - 1) as nat, 0, Box::new(out_tm(i, sum))), Term::Lit(o as nat, width))
}

/// The equations of step `i`, in the order the question states them.
pub open spec fn step_equations(i: nat, o: u64, width: nat, shifts: Shifts, sum: bool) -> Seq<(Term, Term)> {
    seq![eq1(i, shifts), eq2(i, shifts), eq3(i, shifts), eq4(i, o, width, sum)]
}

/// The first line of step `i`: declare `t1_i` and state its equation.
pub open spec fn line1(i: nat, shifts: Shifts) -> Seq<u8> {
    declare_text(Unknown::T1(i)) + assert_text(eq1(i, shifts))
}

/// The second line of step `i`: declare `t2_i` and state its equation.
pub open spec fn line2(i: nat, shifts: Shifts) -> Seq<u8> {
    declare_text(Unknown::T2(i)) + assert_text(eq2(i, shifts))
}

/// The third line of step `i`: declare the new word and state its equation.
pub open spec fn line3(i: nat, shifts: Shifts) -> Seq<u8> {
    declare_text(Unknown::Word(i + 2)) + assert_text(eq3(i, shifts))
}

/// The fourth line of step `i`: the output equation.
pub open spec fn line4(i: nat, o: u64, width: nat, sum: bool) -> Seq<u8> {
    assert_text(eq4(i, o, width, sum))
}

/// The lines of step `i`: the scramble of `word(i)`, the new word mixing in
/// `word(i + 1)`, and the low `width` bits of the output equal to `o`.
#[verifier::opaque]
pub open spec fn step_text(i: nat, o: u64, width: nat, shifts: Shifts, sum: bool) -> Seq<u8> {
    line1(i, shifts) + line2(i, shifts) + line3(i, shifts) + line4(
        i,
        o,
        width,
        sum,
    )
}

/// The steps `0..k` of a script.
pub open spec fn steps_text(o: Seq<u64>, k: nat, width: nat, shifts: Shifts, sum: bool) -> Seq<u8>
    decreases k,
{
    if k == 0 {
        Seq::empty()
    } else {
        steps_text(o, (k - 1) as nat, width, shifts, sum) + step_text((k - 1) as nat, o[k - 1], width, shifts, sum)
    }
}

/// The declarations a script opens with.
pub open spec fn header_text(shifts: Shifts) -> Seq<u8> {
    match shifts {
        Shifts::Fixed(..) => "(set-logic QF_BV)\n(declare-const s0 (_ BitVec 64))\n(declare-const s1 (_ BitVec 64))\n".spec_bytes(),
        Shifts::Free => "(set-logic QF_BV)\n(declare-const s0 (_ BitVec 64))\n(declare-const s1 (_ BitVec 64))\n(declare-const sa (_ BitVec 64))\n(declare-const sb (_ BitVec 64))\n(declare-const sc (_ BitVec 64))\n(assert (bvuge sa (_ bv1 64)))\n(assert (bvule sa (_ bv63 64)))\n(assert (bvuge sb (_ bv1 64)))\n(assert (bvule sb (_ bv63 64)))\n(assert (bvuge sc (_ bv1 64)))\n(assert (bvule sc (_ bv63 64)))\n".spec_bytes(),
    }
}

/// The request a script closes with.
pub open spec fn footer_text(shifts: Shifts) -> Seq<u8> {
    match shifts {
        Shifts::Fixed(..) => "(check-sat)\n(get-value (s0 s1))\n".spec_bytes(),
        Shifts::Free => "(check-sat)\n(get-value (s0 s1 sa sb sc))\n".spec_bytes(),
    }
}

/// The whole script: declare the unknowns, one block of lines per output, then
/// ask for satisfiability and the unknowns' values.
pub open spec fn xorshift_text(o: Seq<u64>, k: nat, width: nat, shifts: Shifts, sum: bool) -> Seq<u8> {
    header_text(shifts) + steps_text(o, k, width, shifts, sum) + footer_text(shifts)
}

/// The lines of step `i` of a question are exactly the declarations of
/// `t1_i`, `t2_i` and the new word `i + 2`, each followed by its defining
/// equation, then the output equation: the text says no more and no less than
/// [`step_equations`].
pub proof fn lemma_step_text_is_equations(i: nat, o: u64, width: nat, shifts: Shifts, sum: bool)
    ensures
        step_text(i, o, width, shifts, sum) == declare_text(Unknown::T1(i)) + assert_text(
            step_equations(i, o, width, shifts, sum)[0],
        ) + declare_text(Unknown::T2(i)) + assert_text(step_equations(i, o, width, shifts, sum)[1]) + declare_text(
            Unknown::Word(i + 2),
        ) + assert_text(step_equations(i, o, width, shifts, sum)[2]) + assert_text(
            step_equations(i, o, width, shifts, sum)[3],
        ),
{
    reveal(step_text);
    let e = step_equations(i, o, width, shifts, sum);
    assert(step_text(i, o, width, shifts, sum) =~= declare_text(Unknown::T1(i)) + assert_text(e[0]) + declare_text(
        Unknown::T2(i),
    ) + assert_text(e[1]) + declare_text(Unknown::Word(i + 2)) + assert_text(e[2]) + assert_text(e[3]));
}

/// State word `j` of a run of xorshift128+ with shifts `(a, b, c)` from `s`:
/// `s.s0`, then each state's `s1` in turn.
pub open spec fn run_word(s: XorShift128Plus, a: u64, b: u64, c: u64, j: nat) -> u64 {
    if j == 0 {
        s.s0
    } else {
        iterate_with(s, a, b, c, (j - 1) as nat).s1
    }
}

/// The values a run gives the unknowns: its state words, the scrambled
/// words of each step, and its shifts.
pub open spec fn run_env(s: XorShift128Plus, a: u64, b: u64, c: u64) -> spec_fn(Unknown) -> u64 {
    |u: Unknown|
        match u {
            Unknown::Word(j) => run_word(s, a, b, c, j),
            Unknown::T1(i) => run_word(s, a, b, c, i) ^ (run_word(s, a, b, c, i) << a),
            Unknown::T2(i) => {
                let t1 = run_word(s, a, b, c, i) ^ (run_word(s, a, b, c, i) << a);
                t1 ^ (t1 >> b)
            },
            Unknown::Shift(k) => if k == 0 {
                a
            } else if k == 1 {
                b
            } else {
                c
            },
        }
}

/// An equation holds when both sides have the same value.
pub open spec fn holds(e: (Term, Term), env: spec_fn(Unknown) -> u64) -> bool {
    eval(e.0, env) == eval(e.1, env)
}

/// The generator answers its own question: for every xorshift128+ run with
/// shifts `(a, b, c)` whose first `k` outputs (the state's `s0 + s1` after
/// each step, or its `s0`) have the targets as their low `width` bits, giving
/// the unknowns the run's values satisfies every equation of every step. So
/// step `i` mixes in the word the run's step `i` really shifts out.
pub proof fn lemma_run_satisfies_question(
    s: XorShift128Plus,
    a: u64,
    b: u64,
    c: u64,
    shifts: Shifts,
    targets: Seq<u64>,
    k: nat,
    width: nat,
    sum: bool,
)
    requires
        1 <= a <= 63,
        1 <= b <= 63,
        1 <= c <= 63,
        shifts matches Shifts::Fixed(x, y, z) ==> x == a && y == b && z == c,
        1 <= width <= 64,
        k <= targets.len(),
        forall|i: nat|
            i < k ==> #[trigger] targets[i as int] as int == (if sum {
                iterate_with(s, a, b, c, i + 1).s0.wrapping_add(iterate_with(s, a, b, c, i + 1).s1)
            } else {
                iterate_with(s, a, b, c, i + 1).s0
            }) as int % (pow2(width) as int),
    ensures
        forall|i: nat, j: int|
            i < k && 0 <= j < 4 ==> #[trigger] holds(
                step_equations(i, targets[i as int], width, shifts, sum)[j],
                run_env(s, a, b, c),
            ),
{
    let env = run_env(s, a, b, c);
    reveal_with_fuel(eval, 4);
    assert forall|i: nat, j: int|
        i < k && 0 <= j < 4 implies #[trigger] holds(step_equations(i, targets[i as int], width, shifts, sum)[j], env) by {
        let e = step_equations(i, targets[i as int], width, shifts, sum);
        let st = iterate_with(s, a, b, c, i);
        let nx = iterate_with(s, a, b, c, i + 1);
        assert(run_word(s, a, b, c, i) == st.s0) by {
            if i > 0 {
                assert(st == step_with(iterate_with(s, a, b, c, (i - 1) as nat), a, b, c));
            }
        }
        assert(run_word(s, a, b, c, i + 1) == st.s1);
        assert(run_word(s, a, b, c, i + 2) == nx.s1);
        assert(nx == step_with(st, a, b, c));
        assert(eval(shift_tm(shifts, 0), env) == a);
        assert(eval(shift_tm(shifts, 1), env) == b);
        assert(eval(shift_tm(shifts, 2), env) == c);
        let x = st.s0;
        let y = st.s1;
        if j == 0 {
            assert(eval(e[0].0, env) == (x ^ (x << a)) as int);
            assert(eval(e[0].1, env) == (x ^ (x << a)) as int);
        } else if j == 1 {
            let t1 = x ^ (x << a);
            assert(eval(e[1].0, env) == (t1 ^ (t1 >> b)) as int);
            assert(eval(e[1].1, env) == (t1 ^ (t1 >> b)) as int);
        } else if j == 2 {
            let t1 = x ^ (x << a);
            let t2 = t1 ^ (t1 >> b);
            assert(eval(e[2].0, env) == nx.s1 as int);
            assert(eval(e[2].1, env) == (t2 ^ y ^ (y >> c)) as int);
        } else {
            vstd::arithmetic::power2::lemma2_to64();
            assert(pow2(0) == 1);
            assert(pow2((width - 1 + 1 - 0) as nat) == pow2(width));
            let v = if sum {
                nx.s0.wrapping_add(nx.s1)
            } else {
                nx.s0
            };
            assert(eval(e[3].1, env) == targets[i as int] as int);
            assert(eval(out_tm(i, sum), env) == v as int);
            assert(((width - 1) as nat + 1 - 0) as nat == width);
            assert(eval(e[3].0, env) == (eval(out_tm(i, sum), env) / (pow2(0) as int)) % (pow2(width) as int));
            assert(eval(e[3].0, env) == (v as int) % (pow2(width) as int));
        }
    }
}

/// Append the solver's name for the `j`-th state word.
fn push_word(out: &mut Vec<u8>, j: u64)
    ensures
        final(out)@ == old(out)@ + word(j as nat),
{
    if j == 0 {
        push_str(out, "s0");
    } else if j == 1 {
        push_str(out, "s1");
    } else {
        push_str(out, "F_");
        push_dec(out, j - 2);
        proof {
            assert(final(out)@ =~= old(out)@ + word(j as nat));
        }
    }
}

/// Append the term for shift `which`.
fn push_shift(out: &mut Vec<u8>, shifts: Shifts, which: u32)
    ensures
        final(out)@ == old(out)@ + shift_term(shifts, which as nat),
{
    match shifts {
        Shifts::Fixed(a, b, c) => {
            let v = if which == 0 {
                a
            } else if which == 1 {
                b
            } else {
                c
            };
            push_str(out, "(_ bv");
            push_dec(out, v as u64);
            push_str(out, " ");
            push_dec(out, 64);
            push_str(out, ")");
            proof {
                assert(final(out)@ =~= old(out)@ + shift_term(shifts, which as nat));
            }
        },
        Shifts::Free => {
            if which == 0 {
                push_str(out, "sa");
            } else if which == 1 {
                push_str(out, "sb");
            } else {
                push_str(out, "sc");
            }
        },
    }
}

#[verifier::spinoff_prover]
#[verifier::rlimit(30)]
fn push_line1(out: &mut Vec<u8>, i: u64, shifts: Shifts)
    ensures
        final(out)@ == old(out)@ + line1(i as nat, shifts),
{
    proof {
        reveal_with_fuel(render, 3);
    }
    let ghost o0 = out@;
    push_declare_t(out, 1, i);
    let ghost o1 = out@;
    push_str(out, "(assert (= ");
    push_t(out, 1, i);
    push_str(out, " ");
    let ghost o2 = out@;
    push_str(out, "(bvxor ");
    push_word(out, i);
    push_str(out, " ");
    let ghost o3 = out@;
    push_str(out, "(bvshl ");
    push_word(out, i);
    push_str(out, " ");
    push_shift(out, shifts, 0);
    push_str(out, ")");
    let ghost x = Term::Var(Unknown::Word(i as nat));
    proof {
        assert(out@ =~= o3 + render(Term::Shl(Box::new(x), Box::new(shift_tm(shifts, 0)))));
    }
    push_str(out, ")");
    proof {
        assert(out@ =~= o2 + render(eq1(i as nat, shifts).1));
    }
    push_str(out, "))\n");
    proof {
        assert(out@ =~= o1 + assert_text(eq1(i as nat, shifts)));
        assert(out@ =~= o0 + line1(i as nat, shifts));
    }
}

#[verifier::spinoff_prover]
#[verifier::rlimit(30)]
fn push_line2(out: &mut Vec<u8>, i: u64, shifts: Shifts)
    ensures
        final(out)@ == old(out)@ + line2(i as nat, shifts),
{
    proof {
        reveal_with_fuel(render, 3);
    }
    let ghost o0 = out@;
    push_declare_t(out, 2, i);
    let ghost o1 = out@;
    push_str(out, "(assert (= ");
    push_t(out, 2, i);
    push_str(out, " ");
    let ghost o2 = out@;
    push_str(out, "(bvxor ");
    push_t(out, 1, i);
    push_str(out, " ");
    let ghost o3 = out@;
    push_str(out, "(bvlshr ");
    push_t(out, 1, i);
    push_str(out, " ");
    push_shift(out, shifts, 1);
    push_str(out, ")");
    let ghost t1 = Term::Var(Unknown::T1(i as nat));
    proof {
        assert(out@ =~= o3 + render(Term::Lshr(Box::new(t1), Box::new(shift_tm(shifts, 1)))));
    }
    push_str(out, ")");
    proof {
        assert(out@ =~= o2 + render(eq2(i as nat, shifts).1));
    }
    push_str(out, "))\n");
    proof {
        assert(out@ =~= o1 + assert_text(eq2(i as nat, shifts)));
        assert(out@ =~= o0 + line2(i as nat, shifts));
    }
}

/// Append the name of `t1_i` (`which == 1`) or `t2_i` (otherwise).
fn push_t(out: &mut Vec<u8>, which: u32, i: u64)
    ensures
        final(out)@ == old(out)@ + unknown_name(if which == 1 {
            Unknown::T1(i as nat)
        } else {
            Unknown::T2(i as nat)
        }),
{
    if which == 1 {
        push_str(out, "t1_");
    } else {
        push_str(out, "t2_");
    }
    push_dec(out, i);
    proof {
        assert(final(out)@ =~= old(out)@ + unknown_name(if which == 1 {
            Unknown::T1(i as nat)
        } else {
            Unknown::T2(i as nat)
        }));
    }
}

/// Append the declaration of `t1_i` (`which == 1`) or `t2_i` (otherwise).
fn push_declare_t(out: &mut Vec<u8>, which: u32, i: u64)
    ensures
        final(out)@ == old(out)@ + declare_text(if which == 1 {
            Unknown::T1(i as nat)
        } else {
            Unknown::T2(i as nat)
        }),
{
    push_str(out, "(declare-const ");
    push_t(out, which, i);
    push_str(out, " (_ BitVec 64))");
    proof {
        assert(final(out)@ =~= old(out)@ + declare_text(if which == 1 {
            Unknown::T1(i as nat)
        } else {
            Unknown::T2(i as nat)
        }));
    }
}

#[verifier::spinoff_prover]
#[verifier::rlimit(30)]
fn push_line3(out: &mut Vec<u8>, i: u64, shifts: Shifts)
    requires
        i < 0xffff_ffff_ffff,
    ensures
        final(out)@ == old(out)@ + line3(i as nat, shifts),
{
    proof {
        reveal_with_fuel(render, 3);
    }
    let ghost o0 = out@;
    push_str(out, "(declare-const ");
    push_word(out, i + 2);
    push_str(out, " (_ BitVec 64))");
    proof {
        assert(out@ =~= o0 + declare_text(Unknown::Word((i + 2) as nat)));
    }
    let ghost o1 = out@;
    push_str(out, "(assert (= ");
    push_word(out, i + 2);
    push_str(out, " ");
    let ghost o2 = out@;
    push_str(out, "(bvxor ");
    let ghost o3 = out@;
    push_str(out, "(bvxor ");
    push_t(out, 2, i);
    push_str(out, " ");
    push_word(out, i + 1);
    push_str(out, ")");
    let ghost y = Term::Var(Unknown::Word((i + 1) as nat));
    proof {
        assert(out@ =~= o3 + render(Term::Xor(Box::new(Term::Var(Unknown::T2(i as nat))), Box::new(y))));
    }
    push_str(out, " ");
    let ghost o4 = out@;
    push_str(out, "(bvlshr ");
    push_word(out, i + 1);
    push_str(out, " ");
    push_shift(out, shifts, 2);
    push_str(out, ")");
    proof {
        assert(out@ =~= o4 + render(Term::Lshr(Box::new(y), Box::new(shift_tm(shifts, 2)))));
    }
    push_str(out, ")");
    proof {
        assert(out@ =~= o2 + render(eq3(i as nat, shifts).1));
    }
    push_str(out, "))\n");
    proof {
        assert(out@ =~= o1 + assert_text(eq3(i as nat, shifts)));
        assert(out@ =~= o0 + line3(i as nat, shifts));
    }
}

#[verifier::spinoff_prover]
#[verifier::rlimit(30)]
fn push_output_term(out: &mut Vec<u8>, i: u64, sum: bool)
    requires
        i < 0xffff_ffff_ffff,
    ensures
        final(out)@ == old(out)@ + output_term(i as nat, sum),
{
    if sum {
        push_str(out, "(bvadd ");
        push_word(out, i + 1);
        push_str(out, " ");
        push_word(out, i + 2);
        push_str(out, ")");
    } else {
        push_word(out, i + 1);
    }
    proof {
        reveal_with_fuel(render, 2);
        assert(final(out)@ =~= old(out)@ + output_term(i as nat, sum));
    }
}

#[verifier::spinoff_prover]
#[verifier::rlimit(30)]
fn push_line4(out: &mut Vec<u8>, i: u64, o: u64, width: u32, sum: bool)
    requires
        i < 0xffff_ffff_ffff,
        1 <= width <= 64,
    ensures
        final(out)@ == old(out)@ + line4(i as nat, o, width as nat, sum),
{
    proof {
        reveal_with_fuel(render, 3);
    }
    let ghost o0 = out@;
    push_str(out, "(assert (= ");
    let ghost o1 = out@;
    push_str(out, "((_ extract ");
    push_dec(out, (width - 1) as u64);
    push_str(out, " ");
    push_dec(out, 0);
    push_str(out, ") ");
    push_output_term(out, i, sum);
    push_str(out, ")");
    proof {
        assert(out@ =~= o1 + render(eq4(i as nat, o, width as nat, sum).0));
    }
    push_str(out, " ");
    let ghost o2 = out@;
    push_str(out, "(_ bv");
    push_dec(out, o);
    push_str(out, " ");
    push_dec(out, width as u64);
    push_str(out, ")");
    proof {
        assert(out@ =~= o2 + render(eq4(i as nat, o, width as nat, sum).1));
    }
    push_str(out, "))\n");
    proof {
        assert(out@ =~= o0 + line4(i as nat, o, width as nat, sum));
    }
}

/// Append the lines of step `i`.
#[verifier::spinoff_prover]
#[verifier::rlimit(30)]
fn push_step(out: &mut Vec<u8>, i: u64, o: u64, width: u32, shifts: Shifts, sum: bool)
    requires
        i < 0xffff_ffff_ffff,
        1 <= width <= 64,
    ensures
        final(out)@ == old(out)@ + step_text(i as nat, o, width as nat, shifts, sum),
{
    push_line1(out, i, shifts);
    push_line2(out, i, shifts);
    push_line3(out, i, shifts);
    push_line4(out, i, o, width, sum);
    proof {
        reveal(step_text);
        assert(final(out)@ =~= old(out)@ + step_text(i as nat, o, width as nat, shifts, sum));
    }
}

/// The SMT-LIB script asking for an xorshift128+ seed `(s0, s1)` — with the
/// given shifts, or with shifts the solver finds too — whose first `k` outputs
/// have the low `width` bits given by `targets`; an output is the post-step sum
/// `s0 + s1` when `sum`, else the post-step `s0`.
pub fn xorshift_script(targets: &[u64], k: usize, width: u32, shifts: Shifts, sum: bool) -> (r: Vec<u8>)
    requires
        k <= targets.len(),
        k < 0x1_0000_0000,
        1 <= width <= 64,
    ensures
        r@ == xorshift_text(targets@, k as nat, width as nat, shifts, sum),
{
    let mut out: Vec<u8> = Vec::new();
    match shifts {
        Shifts::Fixed(..) => push_str(&mut out, "(set-logic QF_BV)\n(declare-const s0 (_ BitVec 64))\n(declare-const s1 (_ BitVec 64))\n"),
        Shifts::Free => push_str(&mut out, "(set-logic QF_BV)\n(declare-const s0 (_ BitVec 64))\n(declare-const s1 (_ BitVec 64))\n(declare-const sa (_ BitVec 64))\n(declare-const sb (_ BitVec 64))\n(declare-const sc (_ BitVec 64))\n(assert (bvuge sa (_ bv1 64)))\n(assert (bvule sa (_ bv63 64)))\n(assert (bvuge sb (_ bv1 64)))\n(assert (bvule sb (_ bv63 64)))\n(assert (bvuge sc (_ bv1 64)))\n(assert (bvule sc (_ bv63 64)))\n"),
    }
    let ghost head = out@;
    let mut i: usize = 0;
    while i < k
        invariant
            i <= k,
            k <= targets.len(),
            k < 0x1_0000_0000,
            1 <= width <= 64,
            head == header_text(shifts),
            out@ == head + steps_text(targets@, i as nat, width as nat, shifts, sum),
        decreases k - i,
    {
        push_step(&mut out, i as u64, targets[i], width, shifts, sum);
        i = i + 1;
        proof {
            assert(out@ =~= head + steps_text(targets@, i as nat, width as nat, shifts, sum));
        }
    }
    match shifts {
        Shifts::Fixed(..) => push_str(&mut out, "(check-sat)\n(get-value (s0 s1))\n"),
        Shifts::Free => push_str(&mut out, "(check-sat)\n(get-value (s0 s1 sa sb sc))\n"),
    }
    out
}

// ---- questions about any window of an output's bits ------------------------------

/// The state word an output reads after its step: the new `s0`, the new `s1`,
/// or their sum.
#[derive(Clone, Copy, Debug, PartialEq, Eq, Structural)]
pub enum Word {
    S0,
    S1,
    Sum,
}

/// The term for what output `i` reads.
pub open spec fn read_term(i: nat, w: Word) -> Seq<u8> {
    match w {
        Word::S0 => word(i + 1),
        Word::S1 => word(i + 2),
        Word::Sum => "(bvadd ".spec_bytes() + word(i + 1) + " ".spec_bytes() + word(i + 2) + ")".spec_bytes(),
    }
}

/// Bits `lo ..= hi` of output `i` are `o`.
pub open spec fn window_line(i: nat, o: u64, hi: nat, lo: nat, w: Word) -> Seq<u8> {
    "(assert (= ((_ extract ".spec_bytes() + dec(hi) + " ".spec_bytes() + dec(lo) + ") ".spec_bytes() + read_term(i, w)
        + ") (_ bv".spec_bytes() + dec(o as nat) + " ".spec_bytes() + dec((hi + 1 - lo) as nat) + ")))\n".spec_bytes()
}

/// The lines of step `i` when outputs are read through a window of bits.
#[verifier::opaque]
pub open spec fn window_step_text(i: nat, o: u64, hi: nat, lo: nat, shifts: Shifts, w: Word) -> Seq<u8> {
    line1(i, shifts) + line2(i, shifts) + line3(i, shifts)
        + window_line(i, o, hi, lo, w)
}

/// The steps `0..k` of a windowed script.
pub open spec fn window_steps_text(o: Seq<u64>, k: nat, hi: nat, lo: nat, shifts: Shifts, w: Word) -> Seq<u8>
    decreases k,
{
    if k == 0 {
        Seq::empty()
    } else {
        window_steps_text(o, (k - 1) as nat, hi, lo, shifts, w) + window_step_text(
            (k - 1) as nat,
            o[k - 1],
            hi,
            lo,
            shifts,
            w,
        )
    }
}

/// The whole windowed script.
pub open spec fn window_text(o: Seq<u64>, k: nat, hi: nat, lo: nat, shifts: Shifts, w: Word) -> Seq<u8> {
    header_text(shifts) + window_steps_text(o, k, hi, lo, shifts, w) + footer_text(shifts)
}

fn push_read_term(out: &mut Vec<u8>, i: u64, w: Word)
    requires
        i < 0xffff_ffff_ffff,
    ensures
        final(out)@ == old(out)@ + read_term(i as nat, w),
{
    match w {
        Word::S0 => push_word(out, i + 1),
        Word::S1 => push_word(out, i + 2),
        Word::Sum => {
            push_str(out, "(bvadd ");
            push_word(out, i + 1);
            push_str(out, " ");
            push_word(out, i + 2);
            push_str(out, ")");
            proof {
                assert(final(out)@ =~= old(out)@ + read_term(i as nat, w));
            }
        },
    }
}

#[verifier::spinoff_prover]
#[verifier::rlimit(30)]
fn push_window_line(out: &mut Vec<u8>, i: u64, o: u64, hi: u32, lo: u32, w: Word)
    requires
        i < 0xffff_ffff_ffff,
        lo <= hi < 64,
    ensures
        final(out)@ == old(out)@ + window_line(i as nat, o, hi as nat, lo as nat, w),
{
    push_str(out, "(assert (= ((_ extract ");
    push_dec(out, hi as u64);
    push_str(out, " ");
    push_dec(out, lo as u64);
    push_str(out, ") ");
    push_read_term(out, i, w);
    push_str(out, ") (_ bv");
    push_dec(out, o);
    push_str(out, " ");
    push_dec(out, (hi + 1 - lo) as u64);
    push_str(out, ")))\n");
    proof {
        assert(final(out)@ =~= old(out)@ + window_line(i as nat, o, hi as nat, lo as nat, w));
    }
}

#[verifier::spinoff_prover]
#[verifier::rlimit(30)]
fn push_window_step(out: &mut Vec<u8>, i: u64, o: u64, hi: u32, lo: u32, shifts: Shifts, w: Word)
    requires
        i < 0xffff_ffff_ffff,
        lo <= hi < 64,
    ensures
        final(out)@ == old(out)@ + window_step_text(i as nat, o, hi as nat, lo as nat, shifts, w),
{
    push_line1(out, i, shifts);
    push_line2(out, i, shifts);
    push_line3(out, i, shifts);
    push_window_line(out, i, o, hi, lo, w);
    proof {
        reveal(window_step_text);
        assert(final(out)@ =~= old(out)@ + window_step_text(i as nat, o, hi as nat, lo as nat, shifts, w));
    }
}

/// The SMT-LIB script asking for an xorshift128+ seed `(s0, s1)` — with the
/// given shifts, or with shifts the solver finds too — whose first `k` outputs
/// have bits `lo ..= hi` given by `targets`, an output reading the word `w`
/// after its step.
pub fn window_script(targets: &[u64], k: usize, hi: u32, lo: u32, shifts: Shifts, w: Word) -> (r: Vec<u8>)
    requires
        k <= targets.len(),
        k < 0x1_0000_0000,
        lo <= hi < 64,
    ensures
        r@ == window_text(targets@, k as nat, hi as nat, lo as nat, shifts, w),
{
    let mut out: Vec<u8> = Vec::new();
    match shifts {
        Shifts::Fixed(..) => push_str(&mut out, "(set-logic QF_BV)\n(declare-const s0 (_ BitVec 64))\n(declare-const s1 (_ BitVec 64))\n"),
        Shifts::Free => push_str(&mut out, "(set-logic QF_BV)\n(declare-const s0 (_ BitVec 64))\n(declare-const s1 (_ BitVec 64))\n(declare-const sa (_ BitVec 64))\n(declare-const sb (_ BitVec 64))\n(declare-const sc (_ BitVec 64))\n(assert (bvuge sa (_ bv1 64)))\n(assert (bvule sa (_ bv63 64)))\n(assert (bvuge sb (_ bv1 64)))\n(assert (bvule sb (_ bv63 64)))\n(assert (bvuge sc (_ bv1 64)))\n(assert (bvule sc (_ bv63 64)))\n"),
    }
    let ghost head = out@;
    let mut i: usize = 0;
    while i < k
        invariant
            i <= k,
            k <= targets.len(),
            k < 0x1_0000_0000,
            lo <= hi < 64,
            head == header_text(shifts),
            out@ == head + window_steps_text(targets@, i as nat, hi as nat, lo as nat, shifts, w),
        decreases k - i,
    {
        push_window_step(&mut out, i as u64, targets[i], hi, lo, shifts, w);
        i = i + 1;
        proof {
            assert(out@ =~= head + window_steps_text(targets@, i as nat, hi as nat, lo as nat, shifts, w));
        }
    }
    match shifts {
        Shifts::Fixed(..) => push_str(&mut out, "(check-sat)\n(get-value (s0 s1))\n"),
        Shifts::Free => push_str(&mut out, "(check-sat)\n(get-value (s0 s1 sa sb sc))\n"),
    }
    out
}

// ---- the LCG question of the IE experiments -----------------------------------

/// The solver's name for the LCG state that produces output `k`'s high half.
pub open spec fn lcg_state(k: nat) -> Seq<u8> {
    if k == 0 {
        "s0".spec_bytes()
    } else {
        "s_".spec_bytes() + dec((k - 1) as nat)
    }
}

/// The window of the top 27 bits of a `b`-bit state.
pub open spec fn top27(b: nat) -> Seq<u8> {
    "((_ extract ".spec_bytes() + dec((b - 1) as nat) + " ".spec_bytes() + dec((b - 27) as nat) + ") ".spec_bytes()
}

/// Output `k`'s high 27 bits are the top of its current state.
pub open spec fn lcg_hi_line(k: nat, n: u64, b: nat) -> Seq<u8> {
    "(assert (= ".spec_bytes() + top27(b) + lcg_state(k) + ") (_ bv".spec_bytes() + dec((n / 0x800_0000) as nat)
        + " 27)))\n".spec_bytes()
}

/// One step later comes the state `sb_k`.
pub open spec fn lcg_mid_line(k: nat, b: nat) -> Seq<u8> {
    "(declare-const sb_".spec_bytes() + dec(k) + " (_ BitVec ".spec_bytes() + dec(b) + "))\n(assert (= sb_".spec_bytes()
        + dec(k) + " (bvadd (bvmul a ".spec_bytes() + lcg_state(k) + ") c)))\n".spec_bytes()
}

/// Its top is the low 27 bits, asserted only when `n < 2^53` (where the double
/// kept them).
pub open spec fn lcg_lo_line(k: nat, n: u64, b: nat) -> Seq<u8> {
    if n < 0x20_0000_0000_0000 {
        "(assert (= ".spec_bytes() + top27(b) + "sb_".spec_bytes() + dec(k) + ") (_ bv".spec_bytes() + dec(
            (n % 0x800_0000) as nat,
        ) + " 27)))\n".spec_bytes()
    } else {
        Seq::empty()
    }
}

/// One more step gives the next output's state `s_k`.
pub open spec fn lcg_next_line(k: nat, b: nat) -> Seq<u8> {
    "(declare-const s_".spec_bytes() + dec(k) + " (_ BitVec ".spec_bytes() + dec(b) + "))\n(assert (= s_".spec_bytes()
        + dec(k) + " (bvadd (bvmul a sb_".spec_bytes() + dec(k) + ") c)))\n".spec_bytes()
}

/// The lines for output `k` with 54-bit numerator `n`.
#[verifier::opaque]
pub open spec fn lcg_step_text(k: nat, n: u64, b: nat) -> Seq<u8> {
    lcg_hi_line(k, n, b) + lcg_mid_line(k, b) + lcg_lo_line(k, n, b) + lcg_next_line(k, b)
}

/// The lines for outputs `0..k`.
pub open spec fn lcg_steps_text(n: Seq<u64>, k: nat, b: nat) -> Seq<u8>
    decreases k,
{
    if k == 0 {
        Seq::empty()
    } else {
        lcg_steps_text(n, (k - 1) as nat, b) + lcg_step_text((k - 1) as nat, n[k - 1], b)
    }
}

/// The declarations of the unknown multiplier, increment and first state.
pub open spec fn lcg_header(b: nat) -> Seq<u8> {
    "(set-logic QF_BV)\n(declare-const a (_ BitVec ".spec_bytes() + dec(b) + "))\n(declare-const c (_ BitVec ".spec_bytes()
        + dec(b) + "))\n(declare-const s0 (_ BitVec ".spec_bytes() + dec(b) + "))\n".spec_bytes()
}

/// The whole LCG script.
pub open spec fn lcg_text(n: Seq<u64>, k: nat, b: nat) -> Seq<u8> {
    lcg_header(b) + lcg_steps_text(n, k, b) + "(check-sat)\n(get-value (a c s0))\n".spec_bytes()
}

fn push_top27(out: &mut Vec<u8>, b: u32)
    requires
        27 <= b <= 64,
    ensures
        final(out)@ == old(out)@ + top27(b as nat),
{
    push_str(out, "((_ extract ");
    push_dec(out, (b - 1) as u64);
    push_str(out, " ");
    push_dec(out, (b - 27) as u64);
    push_str(out, ") ");
    proof {
        assert(final(out)@ =~= old(out)@ + top27(b as nat));
    }
}

fn push_lcg_state(out: &mut Vec<u8>, k: u64)
    ensures
        final(out)@ == old(out)@ + lcg_state(k as nat),
{
    if k == 0 {
        push_str(out, "s0");
    } else {
        push_str(out, "s_");
        push_dec(out, k - 1);
        proof {
            assert(final(out)@ =~= old(out)@ + lcg_state(k as nat));
        }
    }
}

#[verifier::spinoff_prover]
#[verifier::rlimit(30)]
fn push_lcg_hi(out: &mut Vec<u8>, k: u64, n: u64, b: u32)
    requires
        27 <= b <= 64,
    ensures
        final(out)@ == old(out)@ + lcg_hi_line(k as nat, n, b as nat),
{
    push_str(out, "(assert (= ");
    push_top27(out, b);
    push_lcg_state(out, k);
    push_str(out, ") (_ bv");
    proof {
        crate::modular::lemma_powers();
        crate::modular::lemma_shr_div(n, 27);
    }
    push_dec(out, n >> 27);
    push_str(out, " 27)))\n");
    proof {
        assert(final(out)@ =~= old(out)@ + lcg_hi_line(k as nat, n, b as nat));
    }
}

#[verifier::spinoff_prover]
#[verifier::rlimit(30)]
fn push_lcg_mid(out: &mut Vec<u8>, k: u64, b: u32)
    ensures
        final(out)@ == old(out)@ + lcg_mid_line(k as nat, b as nat),
{
    push_str(out, "(declare-const sb_");
    push_dec(out, k);
    push_str(out, " (_ BitVec ");
    push_dec(out, b as u64);
    push_str(out, "))\n(assert (= sb_");
    push_dec(out, k);
    push_str(out, " (bvadd (bvmul a ");
    push_lcg_state(out, k);
    push_str(out, ") c)))\n");
    proof {
        assert(final(out)@ =~= old(out)@ + lcg_mid_line(k as nat, b as nat));
    }
}

#[verifier::spinoff_prover]
#[verifier::rlimit(30)]
fn push_lcg_lo(out: &mut Vec<u8>, k: u64, n: u64, b: u32)
    requires
        27 <= b <= 64,
    ensures
        final(out)@ == old(out)@ + lcg_lo_line(k as nat, n, b as nat),
{
    if n < 0x20_0000_0000_0000 {
        push_str(out, "(assert (= ");
        push_top27(out, b);
        push_str(out, "sb_");
        push_dec(out, k);
        push_str(out, ") (_ bv");
        push_dec(out, n % 0x800_0000);
        push_str(out, " 27)))\n");
        proof {
            assert(final(out)@ =~= old(out)@ + lcg_lo_line(k as nat, n, b as nat));
        }
    } else {
        proof {
            assert(final(out)@ =~= old(out)@ + lcg_lo_line(k as nat, n, b as nat));
        }
    }
}

#[verifier::spinoff_prover]
#[verifier::rlimit(30)]
fn push_lcg_next(out: &mut Vec<u8>, k: u64, b: u32)
    ensures
        final(out)@ == old(out)@ + lcg_next_line(k as nat, b as nat),
{
    push_str(out, "(declare-const s_");
    push_dec(out, k);
    push_str(out, " (_ BitVec ");
    push_dec(out, b as u64);
    push_str(out, "))\n(assert (= s_");
    push_dec(out, k);
    push_str(out, " (bvadd (bvmul a sb_");
    push_dec(out, k);
    push_str(out, ") c)))\n");
    proof {
        assert(final(out)@ =~= old(out)@ + lcg_next_line(k as nat, b as nat));
    }
}

fn push_lcg_step(out: &mut Vec<u8>, k: u64, n: u64, b: u32)
    requires
        27 <= b <= 64,
    ensures
        final(out)@ == old(out)@ + lcg_step_text(k as nat, n, b as nat),
{
    push_lcg_hi(out, k, n, b);
    push_lcg_mid(out, k, b);
    push_lcg_lo(out, k, n, b);
    push_lcg_next(out, k, b);
    proof {
        reveal(lcg_step_text);
        assert(final(out)@ =~= old(out)@ + lcg_step_text(k as nat, n, b as nat));
    }
}

/// The SMT-LIB script asking for the multiplier `a`, increment `c` and first
/// state `s0` of a `b`-bit LCG behind the first `k` 54-bit numerators `n`,
/// each made of the top 27 bits of two consecutive states.
pub fn lcg_script(n: &[u64], k: usize, b: u32) -> (r: Vec<u8>)
    requires
        k <= n.len(),
        27 <= b <= 64,
    ensures
        r@ == lcg_text(n@, k as nat, b as nat),
{
    let mut out: Vec<u8> = Vec::new();
    push_str(&mut out, "(set-logic QF_BV)\n(declare-const a (_ BitVec ");
    push_dec(&mut out, b as u64);
    push_str(&mut out, "))\n(declare-const c (_ BitVec ");
    push_dec(&mut out, b as u64);
    push_str(&mut out, "))\n(declare-const s0 (_ BitVec ");
    push_dec(&mut out, b as u64);
    push_str(&mut out, "))\n");
    let ghost head = out@;
    proof {
        assert(head =~= lcg_header(b as nat));
    }
    let mut i: usize = 0;
    while i < k
        invariant
            i <= k,
            k <= n.len(),
            27 <= b <= 64,
            head == lcg_header(b as nat),
            out@ == head + lcg_steps_text(n@, i as nat, b as nat),
        decreases k - i,
    {
        push_lcg_step(&mut out, i as u64, n[i], b);
        i = i + 1;
        proof {
            assert(out@ =~= head + lcg_steps_text(n@, i as nat, b as nat));
        }
    }
    push_str(&mut out, "(check-sat)\n(get-value (a c s0))\n");
    out
}

// ---- the V8 Stage A question ---------------------------------------------------

/// The solver's name for state `k` of lane `l` (`a` or `b`).
pub open spec fn lane_word(l: Seq<u8>, k: nat) -> Seq<u8> {
    l + dec(k)
}

/// Output `k` is the rotated xor of the two lanes' states `k`.
pub open spec fn xor_out_line(k: nat, o: u64) -> Seq<u8> {
    "(assert (= ((_ rotate_left 12) (bvxor ".spec_bytes() + lane_word("a".spec_bytes(), k) + " ".spec_bytes()
        + lane_word("b".spec_bytes(), k) + ")) (_ bv".spec_bytes() + dec(o as nat) + " 32)))\n".spec_bytes()
}

/// Lane `l` with multiplier `mult` steps from state `k` to state `k + 1`.
pub open spec fn lane_line(l: Seq<u8>, mult: nat, k: nat) -> Seq<u8> {
    "(declare-const ".spec_bytes() + lane_word(l, k + 1) + " (_ BitVec 32))\n(assert (= ".spec_bytes() + lane_word(
        l,
        k + 1,
    ) + " (bvadd (bvmul (_ bv".spec_bytes() + dec(mult) + " 32) (bvand ".spec_bytes() + lane_word(l, k)
        + " #x0000ffff)) (bvlshr ".spec_bytes() + lane_word(l, k) + " (_ bv16 32)))))\n".spec_bytes()
}

/// The lines for output `k` with numerator `o`.
#[verifier::opaque]
pub open spec fn xor_step_text(k: nat, o: u64, mult0: nat, mult1: nat) -> Seq<u8> {
    xor_out_line(k, o) + lane_line("a".spec_bytes(), mult0, k) + lane_line("b".spec_bytes(), mult1, k)
}

/// The lines for outputs `0..k`.
pub open spec fn xor_steps_text(o: Seq<u64>, k: nat, mult0: nat, mult1: nat) -> Seq<u8>
    decreases k,
{
    if k == 0 {
        Seq::empty()
    } else {
        xor_steps_text(o, (k - 1) as nat, mult0, mult1) + xor_step_text((k - 1) as nat, o[k - 1], mult0, mult1)
    }
}

/// The whole Stage A script.
pub open spec fn mwc_xor_text(o: Seq<u64>, k: nat, mult0: nat, mult1: nat) -> Seq<u8> {
    "(set-logic QF_BV)\n(declare-const a0 (_ BitVec 32))\n(declare-const b0 (_ BitVec 32))\n".spec_bytes()
        + xor_steps_text(o, k, mult0, mult1) + "(check-sat)\n(get-value (a0 b0))\n".spec_bytes()
}

#[verifier::spinoff_prover]
#[verifier::rlimit(30)]
fn push_xor_out(out: &mut Vec<u8>, k: u64, o: u64)
    ensures
        final(out)@ == old(out)@ + xor_out_line(k as nat, o),
{
    push_str(out, "(assert (= ((_ rotate_left 12) (bvxor ");
    push_str(out, "a");
    push_dec(out, k);
    push_str(out, " ");
    push_str(out, "b");
    push_dec(out, k);
    push_str(out, ")) (_ bv");
    push_dec(out, o);
    push_str(out, " 32)))\n");
    proof {
        assert(final(out)@ =~= old(out)@ + xor_out_line(k as nat, o));
    }
}

#[verifier::spinoff_prover]
#[verifier::rlimit(30)]
fn push_lane_line(out: &mut Vec<u8>, l: &str, mult: u64, k: u64)
    requires
        k < u64::MAX,
    ensures
        final(out)@ == old(out)@ + lane_line(l.spec_bytes(), mult as nat, k as nat),
{
    push_str(out, "(declare-const ");
    push_str(out, l);
    push_dec(out, k + 1);
    push_str(out, " (_ BitVec 32))\n(assert (= ");
    push_str(out, l);
    push_dec(out, k + 1);
    push_str(out, " (bvadd (bvmul (_ bv");
    push_dec(out, mult);
    push_str(out, " 32) (bvand ");
    push_str(out, l);
    push_dec(out, k);
    push_str(out, " #x0000ffff)) (bvlshr ");
    push_str(out, l);
    push_dec(out, k);
    push_str(out, " (_ bv16 32)))))\n");
    proof {
        assert(final(out)@ =~= old(out)@ + lane_line(l.spec_bytes(), mult as nat, k as nat));
    }
}

fn push_xor_step(out: &mut Vec<u8>, k: u64, o: u64, mult0: u64, mult1: u64)
    requires
        k < u64::MAX,
    ensures
        final(out)@ == old(out)@ + xor_step_text(k as nat, o, mult0 as nat, mult1 as nat),
{
    push_xor_out(out, k, o);
    push_lane_line(out, "a", mult0, k);
    push_lane_line(out, "b", mult1, k);
    proof {
        reveal(xor_step_text);
        assert(final(out)@ =~= old(out)@ + xor_step_text(k as nat, o, mult0 as nat, mult1 as nat));
    }
}

/// The SMT-LIB script asking for the states `(a0, b0)` of two 32-bit MWC lanes
/// with multipliers `mult0` and `mult1` whose first `k` outputs — the lanes
/// xored and rotated left by 12 — are `targets`.
pub fn mwc_xor_script(targets: &[u64], k: usize, mult0: u64, mult1: u64) -> (r: Vec<u8>)
    requires
        k <= targets.len(),
    ensures
        r@ == mwc_xor_text(targets@, k as nat, mult0 as nat, mult1 as nat),
{
    let mut out: Vec<u8> = Vec::new();
    push_str(&mut out, "(set-logic QF_BV)\n(declare-const a0 (_ BitVec 32))\n(declare-const b0 (_ BitVec 32))\n");
    let ghost head = out@;
    let mut i: usize = 0;
    while i < k
        invariant
            i <= k,
            k <= targets.len(),
            head == "(set-logic QF_BV)\n(declare-const a0 (_ BitVec 32))\n(declare-const b0 (_ BitVec 32))\n".spec_bytes(),
            out@ == head + xor_steps_text(targets@, i as nat, mult0 as nat, mult1 as nat),
        decreases k - i,
    {
        push_xor_step(&mut out, i as u64, targets[i], mult0, mult1);
        i = i + 1;
        proof {
            assert(out@ =~= head + xor_steps_text(targets@, i as nat, mult0 as nat, mult1 as nat));
        }
    }
    push_str(&mut out, "(check-sat)\n(get-value (a0 b0))\n");
    out
}

} // verus!
