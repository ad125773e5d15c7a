//! browser_rnd — analyze, reproduce and reverse engineer the `Math.random()`
//! generators of browser JavaScript engines (and a few non-browser runtimes),
//! from MSIE 6 through modern V8 / SpiderMonkey / JavaScriptCore.
//!
//! Every generator here works on integers: each engine's double is an integer
//! numerator over a power-of-two (or, for Hermes, a fixed) denominator, and the
//! library produces and consumes those numerators.
pub mod prng;
pub mod gf2;
pub mod engines;

pub use engines::Engine;
pub mod modular;
pub mod predict;
pub mod sample;
pub mod analyze;
pub mod capture;
pub mod lab;
pub mod smt;
pub mod probe;
