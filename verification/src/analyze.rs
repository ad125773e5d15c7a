//! Engine fingerprinting from a captured sample.
//!
//! Two independent signals:
//!  1. The userAgent string (a prior — see [`Sample::guess_engine`]).
//!  2. The *structure of the values themselves*, which is harder to spoof and
//!     works even with no/garbage UA.
//!
//! The most useful structural signal is the **mantissa resolution**: how many
//! fractional bits the engine actually populates.
//!  - V8 returns `mantissa52 / 2^52` → every value is a multiple of `2^-52`
//!    (so `v * 2^53` is always even). Resolution 52.
//!  - SpiderMonkey and JSC return `m / 2^53` with `m` up to 53 bits → `v * 2^53`
//!    is sometimes odd. Resolution 53.
//!  - Legacy JScript yields far fewer bits (LCG scaled by a small denominator).
//!    Resolution ≪ 52.
//!
//! Resolution cannot separate SpiderMonkey from JSC (both are `m/2^53`); only
//! reproduction from a recovered state can, which is where the UA prior and the
//! engine models come in.
use vstd::prelude::*;
use vstd::std_specs::bits::{axiom_u64_trailing_zeros, u64_trailing_zeros};
use crate::engines::Engine;
use crate::modular::lemma_shr_div;
use crate::sample::{guess_spec, lower_seq, ua_of, Sample};
use vstd::arithmetic::power2::{lemma2_to64_rest, lemma_pow2_strictly_increases, pow2};
use vstd::utf8::encode_utf8;
use vstd::string::StringExecFns;
use vstd::arithmetic::div_mod::lemma_basic_div;

verus! {

/// 2^53: the grid the resolution is measured on.
pub const P53: u64 = 0x20_0000_0000_0000;

/// A structural and userAgent fingerprint of a sample.
#[derive(Clone, Debug)]
pub struct Fingerprint {
    /// Highest number of fractional bits observed across the sample (1..=53).
    pub resolution_bits: u32,
    /// Engines consistent with the structural signal, most-likely first.
    pub structural_candidates: Vec<Engine>,
    /// Engine implied by the userAgent, if any.
    pub ua_guess: Option<Engine>,
}

/// The fractional bits a value needs: `53` minus the trailing zeros of its
/// numerator on the 2^-53 grid (none for zero).
pub open spec fn bits_needed(scaled: u64) -> int {
    if scaled == 0 {
        0
    } else {
        53 - u64_trailing_zeros(scaled)
    }
}

/// The most fractional bits any value of `s` needs.
pub open spec fn resolution(s: Seq<u64>) -> int
    decreases s.len(),
{
    if s.len() == 0 {
        0
    } else {
        let r = resolution(s.drop_last());
        if bits_needed(s.last()) > r {
            bits_needed(s.last())
        } else {
            r
        }
    }
}

/// The engines a resolution is consistent with, most likely first.
pub open spec fn candidates(resolution_bits: u32) -> Seq<Engine> {
    if resolution_bits == 53 {
        seq![Engine::SpiderMonkey, Engine::JavaScriptCore, Engine::Dart]
    } else if resolution_bits == 52 {
        seq![Engine::V8]
    } else if resolution_bits <= 40 {
        // Below the modern engines' width ⇒ legacy / low-entropy generator.
        seq![Engine::JScript]
    } else {
        // 41..=51: ambiguous — could be a modern engine that happened not to
        // exercise the top bits in a short sample. Offer the modern set.
        seq![Engine::V8, Engine::SpiderMonkey, Engine::JavaScriptCore]
    }
}

/// A nonzero numerator up to 2^53 has at most 53 trailing zeros.
proof fn lemma_trailing_zeros_bound(x: u64)
    requires
        0 < x <= P53,
    ensures
        u64_trailing_zeros(x) <= 53,
{
    axiom_u64_trailing_zeros(x);
    let t = u64_trailing_zeros(x);
    if t > 53 {
        let y = x >> (t as u64);
        assert(y & 1u64 == 1u64 ==> y != 0) by (bit_vector);
        lemma_shr_div(x, t as u64);
        lemma_pow2_strictly_increases(53, t as nat);
        lemma2_to64_rest();
        lemma_basic_div(x as int, pow2(t as nat) as int);
    }
}

/// Values on the coarser 2^-52 grid (even numerators on the 2^-53 grid, as
/// V8's are) never need more than 52 fractional bits.
pub proof fn lemma_even_resolution(s: Seq<u64>)
    requires
        forall|i: int| 0 <= i < s.len() ==> #[trigger] s[i] % 2 == 0,
    ensures
        resolution(s) <= 52,
    decreases s.len(),
{
    if s.len() > 0 {
        let x = s.last();
        assert(s.drop_last().len() == s.len() - 1);
        assert forall|i: int| 0 <= i < s.drop_last().len() implies #[trigger] s.drop_last()[i] % 2 == 0 by {
            assert(s.drop_last()[i] == s[i]);
        }
        lemma_even_resolution(s.drop_last());
        if x != 0 {
            axiom_u64_trailing_zeros(x);
            assert(x % 2 == 0);
            assert(x % 2 == 0 ==> (x >> 0u64) & 1u64 == 0u64) by (bit_vector);
            assert(u64_trailing_zeros(x) != 0);
        }
    }
}

/// Largest `n` in `1..=53` such that some value requires `n` fractional bits to
/// represent exactly (i.e. its numerator `round(v * 2^53)` shifted right by
/// `53 - n` is odd). Returns 0 if all values are zero. This estimates the
/// generator's output width.
pub fn mantissa_resolution(scaled: &[u64]) -> (r: u32)
    requires
        forall|i: int| 0 <= i < scaled.len() ==> scaled@[i] <= P53,
    ensures
        r == resolution(scaled@),
        r <= 53,
{
    let mut max_bits: u32 = 0;
    let mut i: usize = 0;
    while i < scaled.len()
        invariant
            i <= scaled.len(),
            forall|j: int| 0 <= j < scaled.len() ==> scaled@[j] <= P53,
            max_bits == resolution(scaled@.subrange(0, i as int)),
            max_bits <= 53,
        decreases scaled.len() - i,
    {
        let v = scaled[i];
        proof {
            assert(scaled@.subrange(0, i + 1).drop_last() =~= scaled@.subrange(0, i as int));
        }
        if v != 0 {
            proof {
                lemma_trailing_zeros_bound(v);
            }
            let bits = 53 - v.trailing_zeros();
            if bits > max_bits {
                max_bits = bits;
            }
        }
        i = i + 1;
    }
    proof {
        assert(scaled@.subrange(0, scaled@.len() as int) =~= scaled@);
    }
    max_bits
}

/// The engines consistent with a resolution, most likely first.
fn structural_candidates(resolution_bits: u32) -> (r: Vec<Engine>)
    ensures
        r@ == candidates(resolution_bits),
{
    if resolution_bits == 53 {
        vec![Engine::SpiderMonkey, Engine::JavaScriptCore, Engine::Dart]
    } else if resolution_bits == 52 {
        vec![Engine::V8]
    } else if resolution_bits <= 40 {
        vec![Engine::JScript]
    } else {
        vec![Engine::V8, Engine::SpiderMonkey, Engine::JavaScriptCore]
    }
}

/// Fingerprint a sample by its values' resolution and its userAgent.
pub fn fingerprint(sample: &Sample) -> (fp: Fingerprint)
    requires
        forall|i: int| 0 <= i < sample.values.len() ==> sample.values@[i] <= P53,
    ensures
        fp.resolution_bits == resolution(sample.values@),
        fp.structural_candidates@ == candidates(fp.resolution_bits),
        fp.ua_guess == (match ua_of(sample.meta@) {
            Some(u) => guess_spec(lower_seq(encode_utf8(u@))),
            None => None,
        }),
{
    let resolution_bits = mantissa_resolution(sample.values.as_slice());
    Fingerprint {
        resolution_bits,
        structural_candidates: structural_candidates(resolution_bits),
        ua_guess: sample.guess_engine(),
    }
}

/// Whether the userAgent's engine is among the structural candidates.
pub fn agrees(fp: &Fingerprint) -> (r: bool)
    ensures
        r == (fp.ua_guess matches Some(g) && fp.structural_candidates@.contains(g)),
{
    match fp.ua_guess {
        None => false,
        Some(g) => {
            let mut i: usize = 0;
            while i < fp.structural_candidates.len()
                invariant
                    i <= fp.structural_candidates.len(),
                    fp.ua_guess == Some(g),
                    forall|j: int| 0 <= j < i ==> fp.structural_candidates@[j] != g,
                decreases fp.structural_candidates.len() - i,
            {
                if fp.structural_candidates[i] == g {
                    assert(fp.structural_candidates@[i as int] == g);
                    return true;
                }
                i = i + 1;
            }
            false
        },
    }
}

// ---- the report -----------------------------------------------------------------

/// An engine's name as text.
pub open spec fn name_text(e: Engine) -> Seq<char> {
    match e {
        Engine::V8 => "v8"@,
        Engine::SpiderMonkey => "spidermonkey"@,
        Engine::JavaScriptCore => "javascriptcore"@,
        Engine::JScript => "jscript"@,
        Engine::Dart => "dart"@,
    }
}

/// Engine names joined by `sep`.
pub open spec fn joined(es: Seq<Engine>, sep: Seq<char>) -> Seq<char>
    decreases es.len(),
{
    if es.len() == 0 {
        Seq::empty()
    } else if es.len() == 1 {
        name_text(es[0])
    } else {
        joined(es.drop_last(), sep) + sep + name_text(es.last())
    }
}

/// `n` in decimal, as text.
pub open spec fn dec_text(n: nat) -> Seq<char>
    decreases n,
{
    if n < 10 {
        seq![(48 + n) as char]
    } else {
        dec_text(n / 10).push((48 + n % 10) as char)
    }
}

/// The finding line's text: whether the userAgent and the structure agree.
pub open spec fn finding_text(guess: Option<Engine>, cands: Seq<Engine>) -> Seq<char> {
    match guess {
        Some(g) => if cands.contains(g) {
            name_text(g) + " (UA and structure agree)"@
        } else {
            "conflict — UA says "@ + name_text(g) + ", structure says "@ + joined(cands, "/"@)
        },
        None => joined(cands, "/"@) + " (structure only)"@,
    }
}

/// The report's first lines: the number of values and the userAgent, if any.
pub open spec fn header_text(s: Sample) -> Seq<char> {
    let ua_line = match ua_of(s.meta@) {
        Some(u) => "userAgent:     "@ + u@ + "\n"@,
        None => Seq::empty(),
    };
    "values:        "@ + dec_text(s.values@.len()) + "\n"@ + ua_line
}

/// The report's fingerprint lines: resolution, userAgent guess, structural
/// candidates and the finding.
pub open spec fn fingerprint_text(res: nat, guess: Option<Engine>, cands: Seq<Engine>) -> Seq<
    char,
> {
    let guess_name = match guess {
        Some(g) => name_text(g),
        None => "unknown"@,
    };
    "resolution:    "@ + dec_text(res) + " bits\n"@ + "ua guess:      "@ + guess_name + "\n"@
        + "structural:    "@ + joined(cands, ", "@) + "\n"@ + "finding:       "@ + finding_text(
        guess,
        cands,
    ) + "\n"@
}

/// The summary `report` writes for a sample.
pub open spec fn report_text(s: Sample) -> Seq<char> {
    let res = resolution(s.values@);
    let guess = match ua_of(s.meta@) {
        Some(u) => guess_spec(lower_seq(encode_utf8(u@))),
        None => None,
    };
    header_text(s) + fingerprint_text(res as nat, guess, candidates(res as u32))
}

/// The text of one decimal digit.
fn digit(d: u64) -> (r: &'static str)
    requires
        d < 10,
    ensures
        r@ == seq![(48 + d) as char],
{
    proof {
        reveal_strlit("0");
        reveal_strlit("1");
        reveal_strlit("2");
        reveal_strlit("3");
        reveal_strlit("4");
        reveal_strlit("5");
        reveal_strlit("6");
        reveal_strlit("7");
        reveal_strlit("8");
        reveal_strlit("9");
    }
    if d == 0 {
        "0"
    } else if d == 1 {
        "1"
    } else if d == 2 {
        "2"
    } else if d == 3 {
        "3"
    } else if d == 4 {
        "4"
    } else if d == 5 {
        "5"
    } else if d == 6 {
        "6"
    } else if d == 7 {
        "7"
    } else if d == 8 {
        "8"
    } else {
        "9"
    }
}

/// Append `n` in decimal.
fn push_number(out: &mut String, n: u64)
    ensures
        final(out)@ == old(out)@ + dec_text(n as nat),
    decreases n,
{
    if n >= 10 {
        push_number(out, n / 10);
    }
    out.append(digit(n % 10));
    proof {
        assert(final(out)@ =~= old(out)@ + dec_text(n as nat));
    }
}

/// Append the engines' names, joined by `sep`.
fn push_names(out: &mut String, es: &[Engine], sep: &str)
    ensures
        final(out)@ == old(out)@ + joined(es@, sep@),
{
    let mut i: usize = 0;
    while i < es.len()
        invariant
            i <= es.len(),
            out@ == old(out)@ + joined(es@.subrange(0, i as int), sep@),
        decreases es.len() - i,
    {
        if i > 0 {
            out.append(sep);
        }
        out.append(es[i].name());
        i = i + 1;
        proof {
            let t = es@.subrange(0, i as int);
            assert(t.drop_last() =~= es@.subrange(0, i - 1));
            assert(out@ =~= old(out)@ + joined(t, sep@));
        }
    }
    proof {
        assert(es@.subrange(0, es@.len() as int) =~= es@);
    }
}

/// Append the finding, whether the userAgent's engine is among the structural
/// candidates.
fn push_finding(out: &mut String, fp: &Fingerprint)
    ensures
        final(out)@ == old(out)@ + finding_text(fp.ua_guess, fp.structural_candidates@),
{
    let agree = agrees(fp);
    match fp.ua_guess {
        Some(g) => {
            if agree {
                out.append(g.name());
                out.append(" (UA and structure agree)");
            } else {
                out.append("conflict — UA says ");
                out.append(g.name());
                out.append(", structure says ");
                push_names(out, fp.structural_candidates.as_slice(), "/");
            }
        },
        None => {
            push_names(out, fp.structural_candidates.as_slice(), "/");
            out.append(" (structure only)");
        },
    }
    proof {
        assert(final(out)@ =~= old(out)@ + finding_text(fp.ua_guess, fp.structural_candidates@));
    }
}

/// Append the number of values and the userAgent line.
fn push_header(out: &mut String, sample: &Sample)
    ensures
        final(out)@ == old(out)@ + header_text(*sample),
{
    out.append("values:        ");
    push_number(out, sample.values.len() as u64);
    out.append("\n");
    match sample.user_agent() {
        Some(ua) => {
            out.append("userAgent:     ");
            out.append(ua);
            out.append("\n");
        },
        None => {},
    }
    proof {
        assert(final(out)@ =~= old(out)@ + header_text(*sample));
    }
}

/// Append the fingerprint lines.
fn push_fingerprint(out: &mut String, fp: &Fingerprint)
    ensures
        final(out)@ == old(out)@ + fingerprint_text(
            fp.resolution_bits as nat,
            fp.ua_guess,
            fp.structural_candidates@,
        ),
{
    out.append("resolution:    ");
    push_number(out, fp.resolution_bits as u64);
    out.append(" bits\n");
    out.append("ua guess:      ");
    match fp.ua_guess {
        Some(g) => out.append(g.name()),
        None => out.append("unknown"),
    }
    out.append("\n");
    out.append("structural:    ");
    push_names(out, fp.structural_candidates.as_slice(), ", ");
    out.append("\n");
    out.append("finding:       ");
    push_finding(out, fp);
    out.append("\n");
    proof {
        assert(final(out)@ =~= old(out)@ + fingerprint_text(
            fp.resolution_bits as nat,
            fp.ua_guess,
            fp.structural_candidates@,
        ));
    }
}

/// A human-readable summary of a sample's fingerprint.
pub fn report(sample: &Sample) -> (r: String)
    requires
        forall|i: int| 0 <= i < sample.values.len() ==> sample.values@[i] <= P53,
    ensures
        r@ == report_text(*sample),
{
    let fp = fingerprint(sample);
    let mut out = String::new();
    push_header(&mut out, sample);
    push_fingerprint(&mut out, &fp);
    proof {
        assert(out@ =~= report_text(*sample));
    }
    out
}
} // verus!
