# browser_rnd

Analyze, reproduce and reverse engineer the `Math.random()` generators of
browsers, from MSIE 6 (JScript) to current Chrome, Firefox and Safari — with
the generators, their inverses and the state recoveries proved correct in
Verus.

Every engine is modelled on integers: a value is its numerator over the
engine's power-of-two grid (2⁻³⁰, 2⁻³², 2⁻⁵², 2⁻⁵³ or 2⁻⁵⁴), so the library
never touches floating point.

## Layout

```
src/prng/        raw generators: xorshift128+ (forward, backward), LCGs
src/engines/     per-engine conversions and serving orders, generation and
                 state recovery (V8, SpiderMonkey, JavaScriptCore, JScript,
                 Hermes, Dart, Presto)
src/gf2.rs       GF(2) linear solver used by the linear recoveries
src/modular.rs   modular inverses and the facts the LCG inverses rest on
src/predict.rs   identify a capture's generator and predict before/after it
src/capture.rs   the collector's text format, taken apart line by line
src/sample.rs    a capture: headers and numerators; userAgent prior
src/analyze.rs   structural fingerprint (mantissa resolution) and report
src/lab.rs       reverse-engineering experiments (drand48, MWC, carries)
src/smt.rs       SMT-LIB questions for the nonlinear eras, and their answers
app/             command line: file I/O, doubles ↔ numerators, running z3
tests/           executable tests of the library
```

Each public function states in its contract what it returns; the laws that
relate several functions (a step back undoes a step, a recovered state
reproduces the capture, rounding to the grid round-trips) are public proof
functions next to the code they are about.

## Use

```
browser_rnd analyze samples/<capture>.txt
browser_rnd predict samples/<capture>.txt -n 5
browser_rnd lab <experiment> samples/<capture>.txt [arg]
```

The eras whose state is nonlinear in the outputs (modern SpiderMonkey, early
V8 xorshift128+) ask the `z3` solver; the library writes the question and reads
the answer, the command line runs it.
