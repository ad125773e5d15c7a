use browser_rnd::engines::dart;
use browser_rnd::engines::hermes;
use browser_rnd::engines::hermes::Mt19937_64;
use browser_rnd::engines::jsc;
use browser_rnd::engines::jsc::GameRand;
use browser_rnd::engines::jscript;
use browser_rnd::engines::presto;
use browser_rnd::engines::spidermonkey;
use browser_rnd::engines::spidermonkey_legacy;
use browser_rnd::engines::v8;
use browser_rnd::engines::v8_legacy;
use browser_rnd::engines::v8_legacy::{Combine, Mwc};
use browser_rnd::engines::v8_libc;
use browser_rnd::engines::Engine;
use browser_rnd::gf2::{solve_128, solve_128_any};
use browser_rnd::prng::xorshift128plus::{undo_lshift, undo_rshift};
use browser_rnd::prng::{Lcg, XorShift128Plus};

const P52: u64 = 1 << 52;
const P53: u64 = 1 << 53;
const P54: u64 = 1 << 54;

fn close(a: &[u64], b: &[u64], tol: u64) -> bool {
    a.len() == b.len() && a.iter().zip(b).all(|(x, y)| x.abs_diff(*y) <= tol)
}

// ---- Dart -------------------------------------------------------------------

#[test]
fn mix64_inverts() {
    for seed in [0u64, 1, 12345, 0x1234_5678, 0xdead_beef_cafe_babe, u64::MAX] {
        let m = dart::mix64(seed);
        if m != 0x5a17 {
            assert_eq!(dart::mix64_inv(m), seed, "seed {seed:#x}");
        }
    }
}

#[test]
fn state_steps_invert() {
    let mut s = dart::seeded(0x0bad_f00d);
    for _ in 0..1000 {
        let n = dart::next_state(s);
        assert_eq!(dart::prev_state(n), s);
        s = n;
    }
}

#[test]
fn dart_output_in_unit_interval() {
    for d in dart::generate(dart::seeded(1), 500) {
        assert!(d < P53);
    }
}

#[test]
fn dart_seed_round_trip() {
    // A fresh Random(seed) → capture → recover the exact seed.
    let seed = 0x1357_9bdf;
    let v = dart::generate(dart::seeded(seed), 200);
    assert_eq!(dart::recover_seed(&v), Some(seed));
}

#[test]
fn dart_recover_round_trip() {
    let v = dart::generate(dart::seeded(0x2233_4455), 300);
    let st = dart::recover(&v).expect("recover");
    assert!(close(&dart::generate(st, 300), &v, dart::TOL));
}

#[test]
fn dart_recover_needs_three_values() {
    let v = dart::generate(dart::seeded(7), 2);
    assert_eq!(dart::recover(&v), None);
}

#[test]
fn dart_mix64_zero_guard() {
    // Thomas Wang's mix sends some seed to 0; Dart replaces that by 0x5a17.
    assert_ne!(dart::mix64(0), 0);
}

// ---- Hermes -----------------------------------------------------------------

#[test]
fn minstd_step_matches_reference() {
    // std::minstd_rand seeded with 1 emits 48271 then 182605794 (known values).
    let mut s = hermes::seeded(1);
    s = hermes::step(s);
    assert_eq!(s, 48271);
    s = hermes::step(s);
    assert_eq!(s, 182_605_794);
}

#[test]
fn step_inverts() {
    let inv = hermes::a_inv();
    let mut s = hermes::seeded(0x1234_5678);
    for _ in 0..10_000 {
        let n = hermes::step(s);
        assert_eq!(hermes::prev(n, inv), s);
        s = n;
    }
}

#[test]
fn hermes_output_in_unit_interval() {
    let r2 = hermes::R * hermes::R;
    for v in hermes::generate(hermes::seeded(0xDEAD_BEEF), 1000) {
        assert!(v < r2, "{v} out of range");
    }
    // mt19937_64 outputs are numerators over 2^64: every u64 is in range.
    assert_eq!(hermes::generate_mt(0x0123_4567_89AB_CDEF, 1000).len(), 1000);
}

#[test]
fn lcg_recover_round_trip() {
    for seed in [1u32, 2, 42, 0x0BAD_F00D, 0x7FFF_FFFE, 123_456_789] {
        let st = hermes::seeded(seed);
        let v = hermes::generate(st, 200);
        let got = hermes::recover(&v).expect("recover");
        assert_eq!(got, st, "seed {seed:#x}");
        assert!(close(&hermes::generate(got, 200), &v, hermes::TOL));
    }
}

#[test]
fn lcg_recover_from_midstream_slice() {
    // Recovery must work starting from any point in the stream.
    let full = hermes::generate(hermes::seeded(0x0051_1E55), 300);
    let st = hermes::recover(&full[137..237]).expect("recover");
    assert!(close(&hermes::generate(st, 100), &full[137..237], hermes::TOL));
}

#[test]
fn hermes_recover_seed_is_state() {
    let v = hermes::generate(hermes::seeded(99), 50);
    assert_eq!(hermes::recover_seed(&v), Some(99));
}

#[test]
fn mt19937_64_reference_value() {
    // Reference: std::mt19937_64 seeded with 5489 (default) -> first output.
    let mut g = Mt19937_64::seeded(5489);
    assert_eq!(g.next_u64(), 14_514_284_786_278_117_030);
}

#[test]
fn hermes_seed_halves() {
    let mut a = Mt19937_64::hermes_seeded(0x1234, 0x5678);
    let mut b = Mt19937_64::seeded(0x1234_0000_5678);
    assert_eq!(a.next_u64(), b.next_u64());
}

// ---- JavaScriptCore ---------------------------------------------------------

#[test]
fn jsc_seed_round_trip() {
    // Seed, advance a warmup, capture — then recover the exact seed.
    let mut st = GameRand::seeded(0x0badf00d);
    for _ in 0..137 {
        st.advance();
    }
    let v = jsc::generate(st, 300);
    let (seed, back) = jsc::recover_seed(&v, 1_000_000).expect("seed");
    assert_eq!(seed, 0x0badf00d);
    assert_eq!(back, 137);
}

#[test]
fn jsc_recover_round_trip() {
    let v = jsc::generate(GameRand::seeded(0x12345678), 300);
    let st = jsc::recover(&v).expect("recover");
    assert_eq!(jsc::generate(st, 300), v);
}

#[test]
fn jsc_output_in_unit_interval() {
    // Every output is a 32-bit numerator over 2^32.
    assert_eq!(jsc::generate(GameRand::seeded(1), 100).len(), 100);
}

#[test]
fn jsc_seeded_words() {
    let g = GameRand::seeded(0x1234_5678);
    assert_eq!(g.high, 0x1234_5678);
    assert_eq!(g.low, 0x1234_5678 ^ jsc::IANB);
}

// ---- JScript / Chakra ---------------------------------------------------------

#[test]
fn jscript_recover_round_trip() {
    let seed = 0x1234_5678_9abc & 0xffff_ffff_ffff;
    let v = jscript::generate(seed, 300);
    assert_eq!(jscript::recover(&v), Some(seed));
}

#[test]
fn jscript_values_above_half_are_even() {
    // A 54-bit numerator at or above 2^53 loses its low bit as a double.
    for n in jscript::generate(0x2233_4455_6677, 500) {
        assert!(n <= P54);
        if n >= P53 {
            assert_eq!(n % 2, 0);
        }
    }
}

#[test]
fn jscript_recover_without_anchor_fails() {
    // No value below one half: nothing exact to anchor on.
    assert_eq!(jscript::recover(&[P53, P53 + 2, P53 + 4]), None);
}

// ---- Presto -----------------------------------------------------------------

#[test]
fn to_double_in_unit_interval_and_on_grid() {
    for (a, b) in [(1u32, 1u32), (u32::MAX, u32::MAX), (0x1234_5678, 0x9abc_def0)] {
        let d = presto::to_double(a, b);
        // The numerator is over 2^53, so the value is in [0, 1) and on the grid.
        assert!(d < 9_007_199_254_740_992, "{d} out of range");
    }
}

#[test]
fn presto_conversion_value() {
    // ui1 = 1, ui2 = 0x800 (low 11 bits cleared): 1·2^21 + 1.
    assert_eq!(presto::to_double(2, 0x801), (1 << 21) + 1);
    // Zero keystream words wrap to all-ones.
    assert_eq!(presto::to_double(0, 0), (0xffff_ffffu64 << 21) + (0xffff_ffff >> 11));
}

// ---- SpiderMonkey -------------------------------------------------------------

#[test]
fn spidermonkey_to_double_in_unit_interval() {
    for bits in [0u64, u64::MAX, 0x1234_5678_9abc_def0] {
        let d = spidermonkey::to_double(bits);
        assert!(d < P53, "{d} out of range");
    }
}

#[test]
fn low_bits_round_trip() {
    let sum = 0x0000_0000_0000_0FFFu64 | (0x1A << 53);
    let d = spidermonkey::to_double(sum);
    assert_eq!(spidermonkey::sum_low_bits(d), sum & (P53 - 1));
}

#[test]
fn spidermonkey_accepts_only_reproducing_state() {
    let seed = XorShift128Plus::new(0x1111_2222_3333_4444, 0x5555_6666_7777_8888);
    let v = spidermonkey::generate(seed, 50);
    assert_eq!(spidermonkey::recover(&v, seed.s0, seed.s1), Some(seed));
    assert_eq!(spidermonkey::recover(&v, seed.s0 ^ 1, seed.s1), None);
    assert_eq!(spidermonkey::recover(&v[..7], seed.s0, seed.s1), None);
}

#[test]
fn spidermonkey_legacy_recover_round_trip() {
    let seed = 0x1234_5678_9abc & 0xffff_ffff_ffff;
    let vals = spidermonkey_legacy::generate(seed, 200);
    assert_eq!(spidermonkey_legacy::recover(&vals), Some(seed));
}

#[test]
fn spidermonkey_legacy_rejects_off_grid() {
    assert_eq!(spidermonkey_legacy::recover(&[P53, 1]), None);
    assert_eq!(spidermonkey_legacy::recover(&[5]), None);
}

// ---- V8 -------------------------------------------------------------------------

#[test]
fn early_round_trip() {
    let seed = XorShift128Plus::new(0xabcd_1234_5678_9012, 0x1111_2222_3333_4444);
    let v = v8::generate_early(seed, 100);
    assert!(v.iter().all(|d| *d < P52));
    assert_eq!(v8::generate_early(seed, 100), v);
    assert_eq!(v8::recover_early(&v, seed.s0, seed.s1), Some(seed));
}

#[test]
fn v8_recover_round_trip() {
    let seed = XorShift128Plus::new(0x1234_5678_9abc_def0, 0x0fed_cba9_8765_4321);
    // Simulate a capture starting 5 values into a batch.
    let full = v8::generate(seed, 5 + 300);
    let observed = &full[5..];
    let (rec, off) = v8::recover(observed).expect("recover");
    assert_eq!(off, 5);
    assert_eq!(v8::generate(rec, 5 + 300)[5..], full[5..]);
}

#[test]
fn v8_53_bit_round_trip() {
    let seed = XorShift128Plus::new(0x1234_5678_9abc_def0, 0x0fed_cba9_8765_4321);
    let full = v8::generate_53(seed, 9 + 200);
    // The 53-bit numerator is the top 53 bits of the post-step s0, one more
    // than the 52-bit conversion keeps.
    let mut st = seed;
    let mut gen = Vec::new();
    for _ in 0..64 {
        st.next_state();
        gen.push(st.s0 >> 11);
    }
    gen.reverse();
    assert_eq!(full[..64], gen[..]);
    assert_eq!(v8::generate(seed, 64).iter().zip(&full).filter(|(a, b)| **a == **b >> 1).count(), 64);
    assert!(full.iter().all(|&v| v < 1 << 53));
    let (rec, off) = v8::recover_53(&full[9..]).expect("recover");
    assert_eq!(off, 9);
    assert_eq!(v8::generate_53(rec, 9 + 200)[9..], full[9..]);
    // A 52-bit recovery does not take the wider values.
    assert_eq!(v8::recover(&full[9..]), None);
}

#[test]
fn v8_to_double_in_unit_interval() {
    for bits in [0u64, u64::MAX, 0x1234_5678_9abc_def0] {
        let d = v8::to_double(bits);
        assert!(d < P52, "{d} out of range");
    }
}

#[test]
fn high_bits_round_trip() {
    // The top 52 bits survive the double conversion.
    let s0 = 0xABCD_EF12_3456_7000u64; // low 12 bits zero
    let d = v8::to_double(s0);
    assert_eq!(v8::s0_high_bits(d), s0 & !0xFFF);
}

#[test]
fn v8_batches_are_served_in_reverse() {
    let seed = XorShift128Plus::new(3, 4);
    let served = v8::generate(seed, 64);
    let mut st = seed;
    let mut gen = Vec::new();
    for _ in 0..64 {
        st.next_state();
        gen.push(v8::to_double(st.s0));
    }
    gen.reverse();
    assert_eq!(served, gen);
    assert_eq!(v8::gen_index(0, 0), 63);
    assert_eq!(v8::gen_index(5, 60), 126);
}

#[test]
fn v8_5x_round_trip() {
    let seed = XorShift128Plus::new(0x0123_4567_89ab_cdef, 0x1357_9bdf_2468_ace0);
    let full = v8::generate_5x(seed, 3 + 100);
    let obs = &full[3..];
    assert_eq!(v8::recover_5x(obs, 3, seed.s0, seed.s1), Some((seed, 3)));
    assert_eq!(v8::recover_5x(obs, 4, seed.s0, seed.s1), None);
    // The solver's window at offset 3: the first 59 values reversed, first eight.
    let w = v8::window_5x(obs, 3);
    assert_eq!(w, vec![obs[58], obs[57], obs[56], obs[55], obs[54], obs[53], obs[52], obs[51]]);
}

#[test]
fn v8_symbolic_step_matches_shifts() {
    let s0: Vec<u128> = (0..64).map(|i| 1u128 << i).collect();
    let s1: Vec<u128> = (0..64).map(|i| 1u128 << (64 + i)).collect();
    let (n0, n1) = v8::sym_step(&s0, &s1);
    assert_eq!(n0, s1);
    // Bit 0 of the new s1: s0 bit 0 (no shifted-in bits), s0 bit 17, s1 bit 0,
    // s1 bit 26.
    assert_eq!(n1[0], 1 | (1 << 17) | (1u128 << 64) | (1u128 << 90));
}

#[test]
fn v8_legacy_recover_round_trip() {
    let vals = v8_legacy::generate(0x1234_5678, 0x9abc_def0, 300);
    assert_eq!(v8_legacy::recover(&vals), Some((0x1234_5678, 0x9abc_def0)));
}

#[test]
fn v8_legacy_rejects_foreign_stream() {
    let mut vals = v8_legacy::generate(1, 2, 10);
    vals[9] ^= 1;
    assert_eq!(v8_legacy::recover(&vals), None);
}

#[test]
fn v8_libc_recover_round_trip() {
    let v = v8_libc::generate(0x1357_9bdf, 300);
    let st = v8_libc::recover(&v).expect("recover");
    assert_eq!(v8_libc::generate(st, 300), v);
}

#[test]
fn v8_libc_first_values() {
    // rand() from state 0: 38 then 7719; the first call is the low half.
    assert_eq!(v8_libc::generate(0, 1), vec![(7719 << 15) | 38]);
}

// ---- raw generators ---------------------------------------------------------------

#[test]
fn step_is_invertible() {
    let mut s = XorShift128Plus::new(0x0123_4567_89ab_cdef, 0xfedc_ba98_7654_3210);
    let start = s;
    for _ in 0..1000 {
        s.next_state();
    }
    for _ in 0..1000 {
        s.prev_state();
    }
    assert_eq!(s, start);
}

#[test]
fn shift_inverses_round_trip() {
    for &v in &[0u64, 1, 0xdead_beef_cafe_babe, u64::MAX, 0x8000_0000_0000_0001] {
        assert_eq!(undo_lshift(v ^ (v << 23), 23), v);
        assert_eq!(undo_rshift(v ^ (v >> 17), 17), v);
    }
}

#[test]
fn xorshift_sum_wraps() {
    let s = XorShift128Plus::new(u64::MAX, 2);
    assert_eq!(s.sum(), 1);
}

#[test]
fn lcg_pow2_and_prime() {
    let mut a = Lcg::pow2(1, 0x5DEECE66D, 0xB, 48);
    assert_eq!(a.next_state(), 0x5DEECE678);
    let mut b = Lcg::prime(1, 48271, 0, 2_147_483_647);
    assert_eq!(b.next_state(), 48271);
    assert_eq!(b.next_state(), 182_605_794);
}

#[test]
fn solves_a_known_system() {
    // Unknown seed; build full-rank identity-ish equations and recover it.
    let seed: u128 = 0xdead_beef_1234_5678_9abc_def0_0f0f_1122;
    let mut rows = Vec::new();
    for i in 0..128 {
        let coeff = 1u128 << i;
        rows.push((coeff, ((seed >> i) & 1) as u8));
    }
    assert_eq!(solve_128(rows), Some(seed));
}

#[test]
fn gf2_detects_inconsistency() {
    // x0 = 1 and x0 = 0.
    assert_eq!(solve_128(vec![(1, 1), (1, 0)]), None);
    // The pivot solution ignores the contradiction.
    assert_eq!(solve_128_any(vec![(1, 1), (2, 1)]), 3);
}

#[test]
fn engine_names_and_order() {
    let names: Vec<&str> = Engine::all().iter().map(|e| e.name()).collect();
    assert_eq!(names, vec!["v8", "spidermonkey", "javascriptcore", "jscript"]);
    assert_eq!(Engine::Dart.name(), "dart");
}

#[test]
fn v8_legacy_eras_round_trip() {
    let eras = [
        (18273, 36969, Combine::Shift16),
        (18030, 36969, Combine::Shift16),
        (36969, 18273, Combine::Shift16),
        (18273, 36969, Combine::Shift14),
    ];
    for (mult0, mult1, combine) in eras {
        let g = Mwc { s0: 0x1234_5678, s1: 0x9abc_def0, mult0, mult1, combine };
        let vals = g.generate(300);
        let m = v8_legacy::recover_mwc(&vals).expect("era recovered");
        assert_eq!((m.mult0, m.mult1, m.combine), (mult0, mult1, combine));
        assert_eq!(m.generate(300), vals);
    }
    // The <<16 fold of the default era is the plain generator's output.
    let g = Mwc { s0: 7, s1: 9, mult0: 18273, mult1: 36969, combine: Combine::Shift16 };
    assert_eq!(g.generate(20), v8_legacy::generate(7, 9, 20));
    // <<14 wraps at 32 bits: 0xffff_ffff << 14 keeps its low 18 bits.
    let w = Mwc { s0: 0xffff_ffff, s1: 0x3_ffff, mult0: 18273, mult1: 36969, combine: Combine::Shift14 };
    assert_eq!(w.generate(1), vec![((0xffff_ffffu64 << 14) + 0x3_ffff) % (1 << 32)]);
    assert_eq!(v8_legacy::recover_mwc(&[1, 2]), None);
}

#[test]
fn v8_stage_a_rotates_the_xored_lanes() {
    let out = v8_legacy::generate_stage_a(0x1234_5678, 0x0000_0000, 2);
    // 0x12345678 rotated left by 12 bits.
    assert_eq!(out[0], 0x4567_8123);
    let s = 18030u64 * 0x5678 + 0x1234;
    let r = (s as u32) ^ 0;
    assert_eq!(out[1], (r.rotate_left(12)) as u64);
    assert_eq!(v8_legacy::recover_stage_a(&v8_legacy::generate_stage_a(7, 9, 20), 7, 9), Some((7, 9)));
    assert_eq!(v8_legacy::recover_stage_a(&v8_legacy::generate_stage_a(7, 9, 20), 7, 10), None);
    assert_eq!(v8_legacy::recover_stage_a(&v8_legacy::generate_stage_a(7, 9, 7), 7, 9), None);
}
