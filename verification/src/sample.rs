//! Captured samples.
//!
//! The collector emits a deliberately dumb, ES3-friendly, line-based format so
//! it round-trips cleanly through a textarea in anything from MSIE 6 to current
//! Chrome:
//!
//! ```text
//! # browser_rnd sample v1
//! ua: Mozilla/5.0 ...
//! platform: Win32
//! count: 2048
//! ---
//! 0.123456789012345
//! 0.987654321098765
//! ...
//! ```
//!
//! Everything before the `---` separator is `key: value` metadata (plus `#`
//! comments); everything after is one value per line. A [`Sample`] holds the
//! metadata in line order and each value as its numerator on the 2⁻⁵³ grid
//! (`round(v · 2^53)`).
use vstd::prelude::*;
use vstd::utf8::encode_utf8;
use vstd::string::StringSliceAdditionalSpecFns;
use crate::engines::Engine;

verus! {

/// A parsed capture: metadata headers (in line order; a later header with
/// the same key replaces an earlier one) plus the observed values in the order
/// the browser served them.
pub struct Sample {
    pub meta: Vec<(String, String)>,
    pub values: Vec<u64>,
}

/// The value of the last header named `ua`, if any.
pub open spec fn ua_of(meta: Seq<(String, String)>) -> Option<String>
    decreases meta.len(),
{
    if meta.len() == 0 {
        None
    } else if meta.last().0@ == "ua"@ {
        Some(meta.last().1)
    } else {
        ua_of(meta.drop_last())
    }
}

/// ASCII lower-casing of one byte.
pub open spec fn lower(b: u8) -> u8 {
    if 65 <= b <= 90 {
        (b + 32) as u8
    } else {
        b
    }
}

/// ASCII lower-casing of a byte string (other bytes, UTF-8 ones included, are
/// kept).
pub open spec fn lower_seq(s: Seq<u8>) -> Seq<u8> {
    Seq::new(s.len(), |i: int| lower(s[i]))
}

/// `pat` occurs in `s` at index `i`.
pub open spec fn occurs_at(s: Seq<u8>, pat: Seq<u8>, i: int) -> bool {
    0 <= i && i + pat.len() <= s.len() && s.subrange(i, i + pat.len()) == pat
}

/// `pat` occurs somewhere in `s`.
pub open spec fn has(s: Seq<u8>, pat: Seq<u8>) -> bool {
    exists|i: int| occurs_at(s, pat, i)
}

/// The engine a lower-cased userAgent points to. Order matters: Edge, Opera and
/// Brave all carry "chrome"; old IE carries "msie" or "trident".
pub open spec fn guess_spec(u: Seq<u8>) -> Option<Engine> {
    if occurs_at(u, "dart".spec_bytes(), 0) || has(u, "flutter".spec_bytes()) {
        Some(Engine::Dart)
    } else if has(u, "msie".spec_bytes()) || has(u, "trident".spec_bytes()) {
        Some(Engine::JScript)
    } else if has(u, "firefox".spec_bytes()) || has(
        u,
        "gecko/".spec_bytes(),
    ) {
        Some(Engine::SpiderMonkey)
    } else if has(u, "chrome".spec_bytes()) || has(
        u,
        "chromium".spec_bytes(),
    ) || has(u, "edg/".spec_bytes()) {
        Some(Engine::V8)
    } else if has(u, "safari".spec_bytes()) || has(
        u,
        "applewebkit".spec_bytes(),
    ) {
        Some(Engine::JavaScriptCore)
    } else {
        None
    }
}

/// Lower-casing keeps the length, leaves no ASCII capital behind, turns each
/// capital `A..=Z` into its small letter (32 further on), and leaves every
/// other byte alone; doing it twice changes nothing more.
pub proof fn lemma_lower_seq(s: Seq<u8>)
    ensures
        lower_seq(s).len() == s.len(),
        forall|i: int| 0 <= i < s.len() ==> !(65 <= #[trigger] lower_seq(s)[i] <= 90),
        forall|i: int| 0 <= i < s.len() && 65 <= s[i] <= 90 ==> #[trigger] lower_seq(s)[i] == s[i] + 32,
        forall|i: int| 0 <= i < s.len() && !(65 <= s[i] <= 90) ==> #[trigger] lower_seq(s)[i] == s[i],
        lower_seq(lower_seq(s)) == lower_seq(s),
{
    assert(lower_seq(lower_seq(s)) =~= lower_seq(s));
}

/// What each userAgent marker makes of the guess, over every lower-cased
/// userAgent: a native Dart/Flutter agent is Dart; otherwise any agent naming
/// "msie" or "trident" (Internet Explorer, including IE 11, which names only
/// "trident") is JScript, and it wins over every later marker; then Firefox /
/// Gecko is SpiderMonkey, then anything Chromium (Edge, Opera and Brave carry
/// "chrome") is V8, then Safari / WebKit is JavaScriptCore; an agent with none
/// of these markers gets no guess.
pub proof fn lemma_guess_markers(u: Seq<u8>)
    ensures
        occurs_at(u, "dart".spec_bytes(), 0) || has(u, "flutter".spec_bytes()) ==> guess_spec(u) == Some(Engine::Dart),
        !(occurs_at(u, "dart".spec_bytes(), 0) || has(u, "flutter".spec_bytes())) && (has(u, "msie".spec_bytes())
            || has(u, "trident".spec_bytes())) ==> guess_spec(u) == Some(Engine::JScript),
        !(occurs_at(u, "dart".spec_bytes(), 0) || has(u, "flutter".spec_bytes())) && !(has(u, "msie".spec_bytes()))
            && !(has(u, "trident".spec_bytes())) && (has(u, "firefox".spec_bytes()) || has(u, "gecko/".spec_bytes()))
            ==> guess_spec(u) == Some(Engine::SpiderMonkey),
        !(occurs_at(u, "dart".spec_bytes(), 0) || has(u, "flutter".spec_bytes())) && !(has(u, "msie".spec_bytes()))
            && !(has(u, "trident".spec_bytes())) && !(has(u, "firefox".spec_bytes())) && !(has(u, "gecko/".spec_bytes()))
            && (has(u, "chrome".spec_bytes()) || has(u, "chromium".spec_bytes()) || has(u, "edg/".spec_bytes()))
            ==> guess_spec(u) == Some(Engine::V8),
        !(occurs_at(u, "dart".spec_bytes(), 0) || has(u, "flutter".spec_bytes())) && !(has(u, "msie".spec_bytes()))
            && !(has(u, "trident".spec_bytes())) && !(has(u, "firefox".spec_bytes())) && !(has(u, "gecko/".spec_bytes()))
            && !(has(u, "chrome".spec_bytes())) && !(has(u, "chromium".spec_bytes())) && !(has(u, "edg/".spec_bytes()))
            && (has(u, "safari".spec_bytes()) || has(u, "applewebkit".spec_bytes())) ==> guess_spec(u) == Some(
            Engine::JavaScriptCore,
        ),
        guess_spec(u) == Some(Engine::JScript) <==> !(occurs_at(u, "dart".spec_bytes(), 0) || has(
            u,
            "flutter".spec_bytes(),
        )) && (has(u, "msie".spec_bytes()) || has(u, "trident".spec_bytes())),
        guess_spec(u) is None <==> !occurs_at(u, "dart".spec_bytes(), 0) && !(has(u, "flutter".spec_bytes())) && !(has(u, "msie".spec_bytes())) && !(has(u, "trident".spec_bytes())) && !(has(u, "firefox".spec_bytes())) && !(has(u, "gecko/".spec_bytes()))
            && !(has(u, "chrome".spec_bytes())) && !(has(u, "chromium".spec_bytes())) && !(has(u, "edg/".spec_bytes()))
            && !(has(u, "safari".spec_bytes())) && !(has(u, "applewebkit".spec_bytes())),
{
}

/// Whether `pat` occurs in `s` at index `i`.
pub(crate) fn occurs(s: &[u8], pat: &[u8], i: usize) -> (r: bool)
    ensures
        r == occurs_at(s@, pat@, i as int),
{
    if i > s.len() || pat.len() > s.len() - i {
        return false;
    }
    let mut k: usize = 0;
    while k < pat.len()
        invariant
            i + pat.len() <= s.len(),
            k <= pat.len(),
            forall|j: int| 0 <= j < k ==> s@[i + j] == pat@[j],
        decreases pat.len() - k,
    {
        if s[i + k] != pat[k] {
            assert(s@.subrange(i as int, i + pat.len())[k as int] != pat@[k as int]);
            return false;
        }
        k = k + 1;
    }
    assert(s@.subrange(i as int, i + pat.len()) =~= pat@);
    true
}

/// Whether `pat` occurs anywhere in `s`.
pub(crate) fn contains(s: &[u8], pat: &[u8]) -> (r: bool)
    ensures
        r == has(s@, pat@),
{
    let mut i: usize = 0;
    while i < s.len()
        invariant
            i <= s.len(),
            forall|j: int| 0 <= j < i ==> !occurs_at(s@, pat@, j),
        decreases s.len() - i,
    {
        if occurs(s, pat, i) {
            return true;
        }
        i = i + 1;
    }
    if occurs(s, pat, i) {
        return true;
    }
    assert forall|j: int| !occurs_at(s@, pat@, j) by {
        if 0 <= j <= i {
        }
    }
    false
}

impl Sample {
    /// The userAgent header, if the capture has one.
    pub fn user_agent(&self) -> (r: Option<&str>)
        ensures
            r matches Some(s) ==> ua_of(self.meta@) matches Some(u) && s@ == u@,
            r is None ==> ua_of(self.meta@) is None,
    {
        let key = "ua".to_owned();
        let mut i = self.meta.len();
        assert(self.meta@.subrange(0, i as int) =~= self.meta@);
        while i > 0
            invariant
                i <= self.meta.len(),
                key@ == "ua"@,
                ua_of(self.meta@) == ua_of(self.meta@.subrange(0, i as int)),
            decreases i,
        {
            assert(self.meta@.subrange(0, i - 1) =~= self.meta@.subrange(0, i as int).drop_last());
            if self.meta[i - 1].0 == key {
                return Some(self.meta[i - 1].1.as_str());
            }
            i = i - 1;
        }
        None
    }

    /// Best-effort engine guess from the userAgent string alone. This is only a
    /// prior — the actual confirmation comes from reproducing the values.
    pub fn guess_engine(&self) -> (r: Option<Engine>)
        ensures
            r == (match ua_of(self.meta@) {
                Some(u) => guess_spec(lower_seq(encode_utf8(u@))),
                None => None,
            }),
    {
        let ua = match self.user_agent() {
            Some(ua) => ua,
            None => return None,
        };
        let raw = ua.as_bytes();
        let mut low: Vec<u8> = Vec::new();
        let mut i: usize = 0;
        while i < raw.len()
            invariant
                i <= raw.len(),
                low@ == lower_seq(raw@.subrange(0, i as int)),
            decreases raw.len() - i,
        {
            let b = raw[i];
            low.push(if 65 <= b && b <= 90 { b + 32 } else { b });
            i = i + 1;
            proof {
                assert(low@ =~= lower_seq(raw@.subrange(0, i as int)));
            }
        }
        assert(raw@.subrange(0, raw@.len() as int) =~= raw@);
        let u = low.as_slice();
        if occurs(u, "dart".as_bytes(), 0) || contains(u, "flutter".as_bytes()) {
            // Native Flutter/Dart capture (not a browser). Seedless Flutter *web*
            // uses the browser's Math.random and looks like a normal browser UA.
            Some(Engine::Dart)
        } else if contains(u, "msie".as_bytes()) || contains(u, "trident".as_bytes()) {
            Some(Engine::JScript)
        } else if contains(u, "firefox".as_bytes()) || contains(u, "gecko/".as_bytes()) {
            Some(Engine::SpiderMonkey)
        } else if contains(u, "chrome".as_bytes()) || contains(
            u,
            "chromium".as_bytes(),
        ) || contains(u, "edg/".as_bytes()) {
            Some(Engine::V8)
        } else if contains(u, "safari".as_bytes()) || contains(
            u,
            "applewebkit".as_bytes(),
        ) {
            // AppleWebKit without Chrome ⇒ JSC (Safari). Chrome was caught above.
            Some(Engine::JavaScriptCore)
        } else {
            None
        }
    }
}

} // verus!
