//! The collector's text format, taken apart line by line.
//!
//! A capture is UTF-8 text. Each line is trimmed of Unicode whitespace (the
//! `White_Space` code points, matched here on their UTF-8 encodings). Blank
//! lines and `#` comments are skipped; `---` starts the value block. Before
//! it, a line is `key: value` metadata split at its first colon, or, if it is
//! a number, the first value (collectors may omit the separator). In the value
//! block every line is a number.
//!
//! "A number" is the decimal-literal grammar of Rust's `f64` parser, compared
//! case-insensitively:
//!
//! ```text
//! Float  ::= Sign? ( 'inf' | 'infinity' | 'nan' | Number )
//! Number ::= ( Digit+ | Digit+ '.' Digit* | Digit* '.' Digit+ ) Exp?
//! Exp    ::= 'e' Sign? Digit+
//! ```
//!
//! The framing stops at the first line that fits neither rule and reports it;
//! what a value line means as a double is left to whoever reads the frame.
use vstd::prelude::*;
use vstd::slice::{slice_subrange, slice_to_vec};
use vstd::string::StringSliceAdditionalSpecFns;
use crate::sample::lower_seq;

verus! {

// ---- lines ------------------------------------------------------------------

/// How many bytes of `s` come before its first newline.
pub open spec fn line_len(s: Seq<u8>) -> nat
    decreases s.len(),
{
    if s.len() == 0 || s[0] == 10 {
        0
    } else {
        1 + line_len(s.skip(1))
    }
}

/// The first line never runs past the text, and it ends at a newline if it ends
/// before the text does.
pub proof fn lemma_line_len_bound(s: Seq<u8>)
    ensures
        line_len(s) <= s.len(),
        line_len(s) < s.len() ==> s[line_len(s) as int] == 10,
    decreases s.len(),
{
    if s.len() > 0 && s[0] != 10 {
        lemma_line_len_bound(s.skip(1));
    }
}

/// The lines of a text: the pieces between newlines, where a final newline
/// ends the last line instead of starting an empty one. (A carriage return
/// before a newline stays in the piece; trimming removes it.)
pub open spec fn lines_of(s: Seq<u8>) -> Seq<Seq<u8>>
    decreases s.len(),
{
    if s.len() == 0 {
        Seq::empty()
    } else {
        let n = line_len(s);
        proof {
            lemma_line_len_bound(s);
        }
        if n < s.len() {
            seq![s.take(n as int)] + lines_of(s.skip(n + 1int))
        } else {
            seq![s]
        }
    }
}

// ---- whitespace ---------------------------------------------------------------

/// An ASCII whitespace byte: tab, line feed, vertical tab, form feed, carriage
/// return, space.
pub open spec fn ws1(a: u8) -> bool {
    9 <= a <= 13 || a == 32
}

/// The two-byte encodings of whitespace: U+0085 and U+00A0.
pub open spec fn ws2(a: u8, b: u8) -> bool {
    a == 0xc2 && (b == 0x85 || b == 0xa0)
}

/// The three-byte encodings of whitespace: U+1680, U+2000 to U+200A, U+2028,
/// U+2029, U+202F, U+205F and U+3000.
pub open spec fn ws3(a: u8, b: u8, c: u8) -> bool {
    ||| a == 0xe1 && b == 0x9a && c == 0x80
    ||| a == 0xe2 && b == 0x80 && (0x80 <= c <= 0x8a || c == 0xa8 || c == 0xa9 || c == 0xaf)
    ||| a == 0xe2 && b == 0x81 && c == 0x9f
    ||| a == 0xe3 && b == 0x80 && c == 0x80
}

/// The length of the whitespace character `s` starts with, or 0.
pub open spec fn lead_ws(s: Seq<u8>) -> nat {
    if s.len() >= 1 && ws1(s[0]) {
        1
    } else if s.len() >= 2 && ws2(s[0], s[1]) {
        2
    } else if s.len() >= 3 && ws3(s[0], s[1], s[2]) {
        3
    } else {
        0
    }
}

/// The length of the whitespace character `s` ends with, or 0.
pub open spec fn trail_ws(s: Seq<u8>) -> nat {
    let n = s.len() as int;
    if n >= 1 && ws1(s[n - 1]) {
        1
    } else if n >= 2 && ws2(s[n - 2], s[n - 1]) {
        2
    } else if n >= 3 && ws3(s[n - 3], s[n - 2], s[n - 1]) {
        3
    } else {
        0
    }
}

/// `s` without its leading whitespace.
pub open spec fn trim_start(s: Seq<u8>) -> Seq<u8>
    decreases s.len(),
{
    if lead_ws(s) > 0 {
        trim_start(s.skip(lead_ws(s) as int))
    } else {
        s
    }
}

/// `s` without its trailing whitespace.
pub open spec fn trim_end(s: Seq<u8>) -> Seq<u8>
    decreases s.len(),
{
    if trail_ws(s) > 0 {
        trim_end(s.take(s.len() - trail_ws(s)))
    } else {
        s
    }
}

/// `s` without whitespace at either end.
pub open spec fn trim(s: Seq<u8>) -> Seq<u8> {
    trim_end(trim_start(s))
}

// ---- numbers ------------------------------------------------------------------

/// An ASCII digit.
pub open spec fn is_digit(b: u8) -> bool {
    48 <= b <= 57
}

/// A sign, `+` or `-`.
pub open spec fn is_sign(b: u8) -> bool {
    b == 43 || b == 45
}

/// How many digits `s` starts with.
pub open spec fn digits(s: Seq<u8>) -> nat
    decreases s.len(),
{
    if s.len() > 0 && is_digit(s[0]) {
        1 + digits(s.skip(1))
    } else {
        0
    }
}

/// The leading digits are digits, never more than the sequence, and followed by
/// a non-digit if anything follows.
pub proof fn lemma_digits_bound(s: Seq<u8>)
    ensures
        digits(s) <= s.len(),
        forall|i: int| 0 <= i < digits(s) ==> is_digit(#[trigger] s[i]),
        digits(s) < s.len() ==> !is_digit(s[digits(s) as int]),
    decreases s.len(),
{
    if s.len() > 0 && is_digit(s[0]) {
        lemma_digits_bound(s.skip(1));
        assert forall|i: int| 0 <= i < digits(s) implies is_digit(#[trigger] s[i]) by {
            if i > 0 {
                assert(s[i] == s.skip(1)[i - 1]);
            }
        }
    }
}

/// An exponent: `e`, an optional sign, then one or more digits and nothing
/// else.
pub open spec fn exponent(s: Seq<u8>) -> bool {
    &&& s.len() >= 2
    &&& s[0] == 101
    &&& {
        let t = if is_sign(s[1]) {
            s.skip(2)
        } else {
            s.skip(1)
        };
        t.len() > 0 && digits(t) == t.len()
    }
}

/// A decimal number: digits with an optional point (at least one digit on
/// either side of it), then optionally an exponent.
pub open spec fn decimal(s: Seq<u8>) -> bool {
    let a = digits(s);
    let r = s.skip(a as int);
    if r.len() > 0 && r[0] == 46 {
        let f = r.skip(1);
        let b = digits(f);
        let t = f.skip(b as int);
        (a > 0 || b > 0) && (t.len() == 0 || exponent(t))
    } else {
        a > 0 && (r.len() == 0 || exponent(r))
    }
}

/// `s` with one leading sign removed, if it has one.
pub open spec fn unsigned(s: Seq<u8>) -> Seq<u8> {
    if s.len() > 0 && is_sign(s[0]) {
        s.skip(1)
    } else {
        s
    }
}

/// Whether `s`, lower-cased, is a floating-point literal: an optional sign,
/// then `inf`, `infinity`, `nan` or a decimal number.
pub open spec fn float_literal(s: Seq<u8>) -> bool {
    let u = lower_seq(unsigned(s));
    ||| u == "inf".spec_bytes()
    ||| u == "infinity".spec_bytes()
    ||| u == "nan".spec_bytes()
    ||| decimal(u)
}

// ---- framing ------------------------------------------------------------------

/// Why a line does not fit the format.
#[derive(Clone, Copy, Debug, PartialEq, Eq, Structural)]
pub enum Fault {
    /// A header line that is neither `key: value` nor a number.
    NotKeyValue,
    /// A line in the value block that is not a number.
    NotNumber,
}

/// What the lines read so far make of a capture: whether the value block has
/// started, the headers (trimmed key and value, in line order), the value
/// lines (1-based line number and trimmed text), and the first line that does
/// not fit, after which nothing more is read.
pub struct Framing {
    pub in_values: bool,
    pub meta: Seq<(Seq<u8>, Seq<u8>)>,
    pub values: Seq<(nat, Seq<u8>)>,
    pub bad: Option<(nat, Fault, Seq<u8>)>,
}

/// Nothing read yet.
pub open spec fn framing_start() -> Framing {
    Framing { in_values: false, meta: Seq::empty(), values: Seq::empty(), bad: None }
}

/// How many bytes of `s` come before its first colon.
pub open spec fn colon_at(s: Seq<u8>) -> nat
    decreases s.len(),
{
    if s.len() == 0 || s[0] == 58 {
        0
    } else {
        1 + colon_at(s.skip(1))
    }
}

/// Reading line number `number` (1-based), `raw`, in state `st`.
pub open spec fn take_line(st: Framing, number: nat, raw: Seq<u8>) -> Framing {
    let line = trim(raw);
    let c = colon_at(line);
    if st.bad is Some || line.len() == 0 || line[0] == 35 {
        st
    } else if line == "---".spec_bytes() {
        Framing { in_values: true, ..st }
    } else if !st.in_values && c < line.len() {
        Framing {
            meta: st.meta.push((trim(line.take(c as int)), trim(line.skip(c + 1int)))),
            ..st
        }
    } else if float_literal(line) {
        Framing { in_values: true, values: st.values.push((number, line)), ..st }
    } else {
        let fault = if st.in_values {
            Fault::NotNumber
        } else {
            Fault::NotKeyValue
        };
        Framing { bad: Some((number, fault, line)), ..st }
    }
}

/// The framing after the first `n` lines.
pub open spec fn framing_upto(lines: Seq<Seq<u8>>, n: nat) -> Framing
    decreases n,
{
    if n == 0 {
        framing_start()
    } else {
        take_line(framing_upto(lines, (n - 1) as nat), n, lines[n - 1])
    }
}

/// The framing of a whole capture.
pub open spec fn framing(text: Seq<u8>) -> Framing {
    framing_upto(lines_of(text), lines_of(text).len())
}

// ---- reading bytes --------------------------------------------------------------

/// The end of the line that starts at `start`: the index of the next newline,
/// or the end of the text.
fn line_end(b: &[u8], start: usize) -> (end: usize)
    requires
        start <= b.len(),
    ensures
        start <= end <= b.len(),
        end - start == line_len(b@.skip(start as int)),
{
    let mut i = start;
    while i < b.len() && b[i] != 10
        invariant
            start <= i <= b.len(),
            line_len(b@.skip(start as int)) == (i - start) + line_len(b@.skip(i as int)),
        decreases b.len() - i,
    {
        assert(b@.skip(i as int).skip(1) =~= b@.skip(i + 1));
        i = i + 1;
    }
    i
}

/// `lead_ws` of `b[s..e]`.
fn lead_ws_at(b: &[u8], s: usize, e: usize) -> (r: usize)
    requires
        s <= e <= b.len(),
    ensures
        r == lead_ws(b@.subrange(s as int, e as int)),
{
    let n = e - s;
    if n >= 1 && ((9 <= b[s] && b[s] <= 13) || b[s] == 32) {
        1
    } else if n >= 2 && b[s] == 0xc2 && (b[s + 1] == 0x85 || b[s + 1] == 0xa0) {
        2
    } else if n >= 3 && is_ws3(b[s], b[s + 1], b[s + 2]) {
        3
    } else {
        0
    }
}

/// `trail_ws` of `b[s..e]`.
fn trail_ws_at(b: &[u8], s: usize, e: usize) -> (r: usize)
    requires
        s <= e <= b.len(),
    ensures
        r == trail_ws(b@.subrange(s as int, e as int)),
{
    let n = e - s;
    if n >= 1 && ((9 <= b[e - 1] && b[e - 1] <= 13) || b[e - 1] == 32) {
        1
    } else if n >= 2 && b[e - 2] == 0xc2 && (b[e - 1] == 0x85 || b[e - 1] == 0xa0) {
        2
    } else if n >= 3 && is_ws3(b[e - 3], b[e - 2], b[e - 1]) {
        3
    } else {
        0
    }
}

fn is_ws3(a: u8, b: u8, c: u8) -> (r: bool)
    ensures
        r == ws3(a, b, c),
{
    (a == 0xe1 && b == 0x9a && c == 0x80) || (a == 0xe2 && b == 0x80 && ((0x80 <= c && c <= 0x8a)
        || c == 0xa8 || c == 0xa9 || c == 0xaf)) || (a == 0xe2 && b == 0x81 && c == 0x9f) || (a
        == 0xe3 && b == 0x80 && c == 0x80)
}

/// The bounds of `b[s..e]` with the whitespace at both ends cut off.
fn trim_range(b: &[u8], s: usize, e: usize) -> (r: (usize, usize))
    requires
        s <= e <= b.len(),
    ensures
        s <= r.0 <= r.1 <= e,
        b@.subrange(r.0 as int, r.1 as int) == trim(b@.subrange(s as int, e as int)),
{
    let mut i = s;
    while lead_ws_at(b, i, e) > 0
        invariant
            s <= i <= e <= b.len(),
            trim_start(b@.subrange(s as int, e as int)) == trim_start(b@.subrange(i as int, e as int)),
        decreases e - i,
    {
        let k = lead_ws_at(b, i, e);
        assert(b@.subrange(i as int, e as int).skip(k as int) =~= b@.subrange(i + k, e as int));
        i = i + k;
    }
    let mut j = e;
    while trail_ws_at(b, i, j) > 0
        invariant
            s <= i <= j <= e <= b.len(),
            trim(b@.subrange(s as int, e as int)) == trim_end(b@.subrange(i as int, j as int)),
        decreases j - i,
    {
        let k = trail_ws_at(b, i, j);
        assert(b@.subrange(i as int, j as int).take(j - i - k) =~= b@.subrange(i as int, j - k));
        j = j - k;
    }
    (i, j)
}

/// The end of the digits `u` has from index `i` on.
fn digits_from(u: &[u8], i: usize) -> (r: usize)
    requires
        i <= u.len(),
    ensures
        i <= r <= u.len(),
        r - i == digits(u@.skip(i as int)),
{
    let mut j = i;
    while j < u.len() && 48 <= u[j] && u[j] <= 57
        invariant
            i <= j <= u.len(),
            digits(u@.skip(i as int)) == (j - i) + digits(u@.skip(j as int)),
        decreases u.len() - j,
    {
        assert(u@.skip(j as int).skip(1) =~= u@.skip(j + 1));
        j = j + 1;
    }
    j
}

/// Whether `u` from index `i` on is an exponent.
fn exponent_from(u: &[u8], i: usize) -> (r: bool)
    requires
        i <= u.len(),
    ensures
        r == exponent(u@.skip(i as int)),
{
    if u.len() - i < 2 || u[i] != 101 {
        return false;
    }
    let t = if u[i + 1] == 43 || u[i + 1] == 45 {
        i + 2
    } else {
        i + 1
    };
    assert(u@.skip(i as int).skip(2) =~= u@.skip(i + 2));
    assert(u@.skip(i as int).skip(1) =~= u@.skip(i + 1));
    let d = digits_from(u, t);
    t < u.len() && d == u.len()
}

/// Whether `u` is a decimal number.
fn decimal_of(u: &[u8]) -> (r: bool)
    ensures
        r == decimal(u@),
{
    assert(u@.skip(0) =~= u@);
    let a = digits_from(u, 0);
    if a < u.len() && u[a] == 46 {
        assert(u@.skip(a as int).skip(1) =~= u@.skip(a + 1));
        let b = digits_from(u, a + 1);
        assert(u@.skip(a + 1).skip(b - (a + 1)) =~= u@.skip(b as int));
        (a > 0 || b > a + 1) && (b == u.len() || exponent_from(u, b))
    } else {
        a > 0 && (a == u.len() || exponent_from(u, a))
    }
}

/// Whether two byte strings are equal.
fn same(x: &[u8], y: &[u8]) -> (r: bool)
    ensures
        r == (x@ == y@),
{
    if x.len() != y.len() {
        return false;
    }
    let mut i: usize = 0;
    while i < x.len()
        invariant
            x.len() == y.len(),
            i <= x.len(),
            forall|j: int| 0 <= j < i ==> x@[j] == y@[j],
        decreases x.len() - i,
    {
        if x[i] != y[i] {
            return false;
        }
        i = i + 1;
    }
    assert(x@ =~= y@);
    true
}

/// Whether `b[s..e]` is a floating-point literal.
fn is_float(b: &[u8], s: usize, e: usize) -> (r: bool)
    requires
        s <= e <= b.len(),
    ensures
        r == float_literal(b@.subrange(s as int, e as int)),
{
    let p = if s < e && (b[s] == 43 || b[s] == 45) {
        s + 1
    } else {
        s
    };
    assert(unsigned(b@.subrange(s as int, e as int)) =~= b@.subrange(p as int, e as int));
    let mut u: Vec<u8> = Vec::new();
    let mut i = p;
    while i < e
        invariant
            p <= i <= e <= b.len(),
            u@ == lower_seq(b@.subrange(p as int, i as int)),
        decreases e - i,
    {
        let c = b[i];
        u.push(if 65 <= c && c <= 90 { c + 32 } else { c });
        i = i + 1;
        assert(u@ =~= lower_seq(b@.subrange(p as int, i as int)));
    }
    let v = u.as_slice();
    same(v, "inf".as_bytes()) || same(v, "infinity".as_bytes()) || same(v, "nan".as_bytes())
        || decimal_of(v)
}

/// `b[s..e]` as a vector.
fn copy(b: &[u8], s: usize, e: usize) -> (r: Vec<u8>)
    requires
        s <= e <= b.len(),
    ensures
        r@ == b@.subrange(s as int, e as int),
{
    slice_to_vec(slice_subrange(b, s, e))
}

/// The index of the first colon in `b[s..e]`, or `e`.
fn colon_in(b: &[u8], s: usize, e: usize) -> (r: usize)
    requires
        s <= e <= b.len(),
    ensures
        s <= r <= e,
        r - s == colon_at(b@.subrange(s as int, e as int)),
{
    let mut i = s;
    while i < e && b[i] != 58
        invariant
            s <= i <= e <= b.len(),
            colon_at(b@.subrange(s as int, e as int)) == (i - s) + colon_at(b@.subrange(i as int, e as int)),
        decreases e - i,
    {
        assert(b@.subrange(i as int, e as int).skip(1) =~= b@.subrange(i + 1, e as int));
        i = i + 1;
    }
    i
}

/// Once a line has failed, the lines after it change nothing.
proof fn lemma_stopped(lines: Seq<Seq<u8>>, n: nat, m: nat)
    requires
        n <= m,
        framing_upto(lines, n).bad is Some,
    ensures
        framing_upto(lines, m) == framing_upto(lines, n),
    decreases m - n,
{
    if m > n {
        lemma_stopped(lines, n, (m - 1) as nat);
    }
}

/// A capture taken apart: the headers, the value lines (1-based line number
/// and trimmed text), and the first line that did not fit, if any.
pub struct Frame {
    pub meta: Vec<(Vec<u8>, Vec<u8>)>,
    pub values: Vec<(usize, Vec<u8>)>,
    pub bad: Option<(usize, Fault, Vec<u8>)>,
}

impl Frame {
    /// Whether this frame holds what `f` describes.
    pub open spec fn shows(&self, f: Framing) -> bool {
        &&& self.meta@.len() == f.meta.len()
        &&& forall|i: int|
            0 <= i < f.meta.len() ==> (#[trigger] self.meta@[i]).0@ == f.meta[i].0
                && self.meta@[i].1@ == f.meta[i].1
        &&& self.values@.len() == f.values.len()
        &&& forall|i: int|
            0 <= i < f.values.len() ==> (#[trigger] self.values@[i]).0 == f.values[i].0
                && self.values@[i].1@ == f.values[i].1
        &&& match self.bad {
            Some(x) => f.bad == Some((x.0 as nat, x.1, x.2@)),
            None => f.bad is None,
        }
    }
}

/// Take a capture apart into headers and value lines, stopping at the first
/// line that does not fit the format.
pub fn frame(text: &str) -> (r: Frame)
    ensures
        r.shows(framing(text.spec_bytes())),
{
    let b = text.as_bytes();
    let ghost lines = lines_of(b@);
    let mut fr = Frame { meta: Vec::new(), values: Vec::new(), bad: None };
    let mut in_values = false;
    let mut start: usize = 0;
    let mut number: usize = 0;
    assert(b@.skip(0) =~= b@);
    while start < b.len() && fr.bad.is_none()
        invariant
            b@ == text.spec_bytes(),
            lines == lines_of(b@),
            number <= start <= b.len(),
            number <= lines.len(),
            lines_of(b@.skip(start as int)) == lines.skip(number as int),
            fr.shows(framing_upto(lines, number as nat)),
            in_values == framing_upto(lines, number as nat).in_values,
        decreases b.len() - start,
    {
        let ghost st = framing_upto(lines, number as nat);
        let ghost rest = b@.skip(start as int);
        let end = line_end(b, start);
        let next = if end < b.len() {
            end + 1
        } else {
            end
        };
        proof {
            lemma_line_len_bound(rest);
            let piece = b@.subrange(start as int, end as int);
            if end < b.len() {
                assert(rest.take(end - start) =~= piece);
                assert(rest.skip(end - start + 1) =~= b@.skip(next as int));
            } else {
                assert(rest =~= piece);
                assert(b@.skip(next as int) =~= Seq::<u8>::empty());
            }
            assert(lines_of(rest) =~= seq![piece] + lines_of(b@.skip(next as int)));
            assert(number < lines.len());
            assert(lines.skip(number as int)[0] == lines[number as int]);
            assert(lines[number as int] == piece);
            assert(lines.skip(number as int).skip(1) =~= lines.skip(number + 1));
        }
        let (s, e) = trim_range(b, start, end);
        number = number + 1;
        let ghost line = b@.subrange(s as int, e as int);
        assert(line == trim(lines[number - 1]));
        if e == s || b[s] == 35 {
        } else if same(slice_subrange(b, s, e), "---".as_bytes()) {
            in_values = true;
        } else {
            let c = if !in_values {
                colon_in(b, s, e)
            } else {
                e
            };
            if !in_values && c < e {
                let (ks, ke) = trim_range(b, s, c);
                let (vs, ve) = trim_range(b, c + 1, e);
                proof {
                    assert(line.take(c - s) =~= b@.subrange(s as int, c as int));
                    assert(line.skip(c - s + 1) =~= b@.subrange(c + 1, e as int));
                }
                fr.meta.push((copy(b, ks, ke), copy(b, vs, ve)));
            } else if is_float(b, s, e) {
                in_values = true;
                fr.values.push((number, copy(b, s, e)));
            } else {
                let fault = if in_values {
                    Fault::NotNumber
                } else {
                    Fault::NotKeyValue
                };
                fr.bad = Some((number, fault, copy(b, s, e)));
            }
        }
        start = next;
    }
    proof {
        if fr.bad is Some {
            lemma_stopped(lines, number as nat, lines.len());
        } else {
            assert(b@.skip(start as int) =~= Seq::<u8>::empty());
            assert(lines.skip(number as int).len() == 0);
        }
    }
    fr
}

} // verus!
