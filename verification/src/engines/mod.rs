//! Per-engine `Math.random()` models.
//!
//! Each engine pairs a raw PRNG (see `crate::prng`) with the engine-specific way
//! it folds state into an output and the order in which it serves those
//! values. The conversions are the part that actually distinguishes the
//! browsers — the underlying xorshift128+ recurrence is shared by V8,
//! SpiderMonkey and JSC.
use vstd::prelude::*;

pub mod dart;
pub mod hermes;
pub mod jsc;
pub mod jscript;
pub mod presto;
pub mod spidermonkey;
pub mod spidermonkey_legacy;
pub mod v8;
pub mod v8_legacy;
pub mod v8_libc;

verus! {

/// `a` and `b` differ by at most `tol`.
pub open spec fn close(a: u64, b: u64, tol: u64) -> bool {
    a <= b + tol && b <= a + tol
}

/// Two output sequences have the same length and agree within `tol` everywhere.
pub open spec fn all_close(g: Seq<u64>, o: Seq<u64>, tol: u64) -> bool {
    g.len() == o.len() && forall|i: int| 0 <= i < g.len() ==> close(#[trigger] g[i], o[i], tol)
}

/// Every sequence agrees with itself, at any tolerance.
pub proof fn lemma_close_self(o: Seq<u64>, tol: u64)
    ensures
        all_close(o, o, tol),
{
    assert forall|i: int| 0 <= i < o.len() implies close(#[trigger] o[i], o[i], tol) by {}
}

/// Whether two outputs agree within `tol`.
pub fn within(a: u64, b: u64, tol: u64) -> (r: bool)
    ensures
        r == close(a, b, tol),
{
    if a >= b {
        a - b <= tol
    } else {
        b - a <= tol
    }
}

/// Whether a regenerated run agrees with an observed one, value by value.
pub fn all_within(g: &[u64], o: &[u64], tol: u64) -> (r: bool)
    ensures
        r == all_close(g@, o@, tol),
{
    if g.len() != o.len() {
        return false;
    }
    let mut i: usize = 0;
    while i < g.len()
        invariant
            g.len() == o.len(),
            i <= g.len(),
            forall|j: int| 0 <= j < i ==> close(#[trigger] g@[j], o@[j], tol),
        decreases g.len() - i,
    {
        if !within(g[i], o[i], tol) {
            return false;
        }
        i = i + 1;
    }
    true
}

/// Which engine a sample is believed to come from.
#[derive(Clone, Copy, Debug, PartialEq, Eq, Structural)]
pub enum Engine {
    /// Chrome, Edge (Chromium), Opera, Brave, Node.js.
    V8,
    /// Firefox and other Gecko browsers.
    SpiderMonkey,
    /// Safari and iOS WebViews.
    JavaScriptCore,
    /// Legacy MSIE 6/7/8 JScript.
    JScript,
    /// Dart `Random` (Flutter apps) — not a browser engine.
    Dart,
}

impl Engine {
    pub fn name(self) -> (r: &'static str)
        ensures
            self == Engine::V8 ==> r@ == "v8"@,
            self == Engine::SpiderMonkey ==> r@ == "spidermonkey"@,
            self == Engine::JavaScriptCore ==> r@ == "javascriptcore"@,
            self == Engine::JScript ==> r@ == "jscript"@,
            self == Engine::Dart ==> r@ == "dart"@,
    {
        match self {
            Engine::V8 => "v8",
            Engine::SpiderMonkey => "spidermonkey",
            Engine::JavaScriptCore => "javascriptcore",
            Engine::JScript => "jscript",
            Engine::Dart => "dart",
        }
    }

    /// All engines, in detection-priority order.
    pub fn all() -> (r: &'static [Engine])
        ensures
            r@ == seq![
                Engine::V8,
                Engine::SpiderMonkey,
                Engine::JavaScriptCore,
                Engine::JScript,
            ],
    {
        &[Engine::V8, Engine::SpiderMonkey, Engine::JavaScriptCore, Engine::JScript]
    }
}

} // verus!
