use browser_rnd::engines::{jscript, spidermonkey, spidermonkey_legacy, v8, v8_legacy};
use browser_rnd::lab::{
    agreeing_prefix, best_mwc_mult, crack_drand48, crack_mwc, crack_sm, d_double, d_step, lcg_reproduced,
    mwc_lane_step, reversed_blocks, sm_window_agreement, sm_z3_resume, sm_z3_start, v8_in_order, v8_shifted_cache,
    SmProbe, SmStep,
};
use browser_rnd::prng::XorShift128Plus;
use browser_rnd::smt::{
    decimal, dec_values, hex_values, lcg_script, model_state, shift_model, window_script, xorshift_script, Shifts, Word,
};

#[test]
fn drand48_step_values() {
    assert_eq!(d_step(0), 0xb);
    assert_eq!(d_step(1), 0x5_deec_e678);
    let (n, s2) = d_double(0);
    assert_eq!(s2, d_step(d_step(0)));
    assert_eq!(n, ((d_step(0) >> 22) << 27) + (s2 >> 21));
}

#[test]
fn drand48_crack_finds_the_true_state() {
    let seed = 0x0123_4567_89ab;
    let vals = spidermonkey_legacy::generate(seed, 20);
    let cands = crack_drand48(&vals);
    let s1 = d_step(seed);
    let hit = cands.iter().find(|c| c.x == s1 & 0x3f_ffff).expect("true candidate");
    assert_eq!(hit.state, d_step(s1));
    assert_eq!(hit.reproduced, 19);
    assert!(cands.windows(2).all(|w| w[0].x < w[1].x));
}

#[test]
fn mwc_lane_step_value() {
    assert_eq!(mwc_lane_step(0x0001_0002, 18273), 18273 * 2 + 1);
}

#[test]
fn mwc_multipliers_and_run_are_recovered() {
    let r = v8_legacy::generate(0x1234_5678, 0x0bad_f00d, 200);
    let lane0: Vec<u64> = r.iter().map(|x| (x >> 16) & 0xffff).collect();
    let (c, score) = best_mwc_mult(&lane0, 80);
    assert_eq!(c, 18273);
    assert_eq!(score, 78);
    let crack = crack_mwc(&r, 16, 16);
    assert_eq!((crack.mult0, crack.mult1), (18273, 36969));
    assert_eq!(crack.start, 0);
    assert_eq!(crack.run, 200);
}

#[test]
fn mwc_low_consistency_is_reported() {
    let r: Vec<u64> = (0..100u64).map(|i| i * 0x9e37_79b9 % 0xffff_ffff).collect();
    let crack = crack_mwc(&r, 16, 16);
    assert!(crack.score0 < 40 || crack.score1 < 40);
    assert_eq!((crack.start, crack.run), (0, 0));
}

#[test]
fn sm_carry_fixpoint_result_reproduces() {
    // A stream under the (s0+s1) >> 11 conversion.
    let mut st = XorShift128Plus::new(0x0f0f_1234_5678_9abc, 0x1357_2468_ace0_bdf1);
    let mut o = Vec::new();
    for _ in 0..40 {
        st.next_state();
        o.push(st.sum() >> 11);
    }
    if let Some((seed, iter)) = crack_sm(&o) {
        assert!(iter < 200);
        let mut s = seed;
        for want in &o[..12] {
            s.next_state();
            assert_eq!(s.sum() >> 11, *want);
        }
    }
}

#[test]
fn lcg_reproduction_of_jscript_stream() {
    let seed = 0x2233_4455_6677;
    let n = jscript::generate(seed, 60);
    let s1 = d_step(seed);
    assert_eq!(lcg_reproduced(0x5_deec_e66d, 0xb, s1, 48, &n, 60), 60);
    assert_eq!(lcg_reproduced(0x5_deec_e66d, 0xd, s1, 48, &n, 60), 1);
}

#[test]
fn decimal_digits() {
    assert_eq!(decimal(0), b"0".to_vec());
    assert_eq!(decimal(1234), b"1234".to_vec());
    assert_eq!(decimal(u64::MAX), u64::MAX.to_string().into_bytes());
}

#[test]
fn xorshift_script_text() {
    let s = xorshift_script(&[5, 6], 1, 53, Shifts::Fixed(23, 17, 26), true);
    let want = "(set-logic QF_BV)\n(declare-const s0 (_ BitVec 64))\n(declare-const s1 (_ BitVec 64))\n\
(declare-const t1_0 (_ BitVec 64))(assert (= t1_0 (bvxor s0 (bvshl s0 (_ bv23 64)))))\n\
(declare-const t2_0 (_ BitVec 64))(assert (= t2_0 (bvxor t1_0 (bvlshr t1_0 (_ bv17 64)))))\n\
(declare-const F_0 (_ BitVec 64))(assert (= F_0 (bvxor (bvxor t2_0 s1) (bvlshr s1 (_ bv26 64)))))\n\
(assert (= ((_ extract 52 0) (bvadd s1 F_0)) (_ bv5 53)))\n\
(check-sat)\n(get-value (s0 s1))\n";
    assert_eq!(String::from_utf8(s).unwrap(), want);
    let free = String::from_utf8(xorshift_script(&[7], 1, 54, Shifts::Free, false)).unwrap();
    assert!(free.contains("(bvshl s0 sa))))\n"));
    assert!(free.contains("(assert (= ((_ extract 53 0) s1) (_ bv7 54)))\n"));
    assert!(free.ends_with("(get-value (s0 s1 sa sb sc))\n"));
}

#[test]
fn window_script_text() {
    let s = String::from_utf8(window_script(&[5, 6], 2, 63, 12, Shifts::Fixed(23, 17, 26), Word::S1)).unwrap();
    assert!(s.contains("(assert (= ((_ extract 63 12) F_0) (_ bv5 52)))\n"));
    assert!(s.contains("(assert (= ((_ extract 63 12) F_1) (_ bv6 52)))\n"));
    assert!(s.ends_with("(check-sat)\n(get-value (s0 s1))\n"));
    // The low window of the sum is the question the 52-bit solver stage asks.
    assert_eq!(
        window_script(&[5, 6], 2, 51, 0, Shifts::Free, Word::Sum),
        xorshift_script(&[5, 6], 2, 52, Shifts::Free, true)
    );
    let top = String::from_utf8(window_script(&[9], 1, 63, 12, Shifts::Free, Word::S0)).unwrap();
    assert!(top.contains("(assert (= ((_ extract 63 12) s1) (_ bv9 52)))\n"));
}

#[test]
fn lcg_script_text() {
    let n = [(3u64 << 27) | 4, (1u64 << 53) | 9];
    let s = String::from_utf8(lcg_script(&n, 2, 48)).unwrap();
    assert!(s.starts_with("(set-logic QF_BV)\n(declare-const a (_ BitVec 48))\n"));
    assert!(s.contains("(assert (= ((_ extract 47 21) s0) (_ bv3 27)))\n"));
    assert!(s.contains("(assert (= ((_ extract 47 21) sb_0) (_ bv4 27)))\n"));
    // The second value is at least one half: its low half is not asserted.
    assert!(!s.contains("sb_1) (_ bv9 27)"));
    assert!(s.ends_with("(check-sat)\n(get-value (a c s0))\n"));
}

#[test]
fn solver_model_reading() {
    let text = b"sat\n((s0 #x0000000000000001)\n (s1 #xdeadbeef00000000))\n";
    assert_eq!(hex_values(text), vec![1, 0xdead_beef_0000_0000]);
    assert_eq!(model_state(text), Some((1, 0xdead_beef_0000_0000)));
    assert_eq!(model_state(b"unsat\n"), None);
    // A run too long for 64 bits and an empty run are skipped.
    assert_eq!(hex_values(b"#x10000000000000000 #x #x2a"), vec![42]);
}

#[test]
fn solver_shift_model_reading() {
    let hex = b"sat\n((s0 #x0000000000000003)\n (s1 #x0000000000000004)\n (sa #x0000000000000017)\n (sb #x0000000000000011)\n (sc #x000000000000001a))\n";
    assert_eq!(shift_model(hex), Some((3, 4, 23, 17, 26)));
    let dec = b"sat\n((s0 #x0000000000000003)\n (s1 #x0000000000000004)\n (sa (_ bv23 64))\n (sb (_ bv17 64))\n (sc (_ bv26 64)))\n";
    assert_eq!(dec_values(dec), vec![23, 17, 26]);
    assert_eq!(shift_model(dec), Some((3, 4, 23, 17, 26)));
    assert_eq!(shift_model(b"unsat\n"), None);
    assert_eq!(shift_model(b"sat\n((s0 #x01)\n (s1 #x02))\n"), None);
}

#[test]
fn runs_are_compared_up_to_the_first_disagreement() {
    assert_eq!(agreeing_prefix(&[1, 2, 3, 4], &[1, 2, 30, 4], 0), 2);
    assert_eq!(agreeing_prefix(&[10, 20, 30], &[12, 18, 30, 7], 2), 3);
    assert_eq!(agreeing_prefix(&[], &[1], 0), 0);
}

#[test]
fn blocks_are_reversed_and_the_tail_kept() {
    let o: Vec<u64> = (0..7).collect();
    assert_eq!(reversed_blocks(&o, 3), vec![2, 1, 0, 5, 4, 3, 6]);
    assert_eq!(reversed_blocks(&o, 1), o);
    assert_eq!(reversed_blocks(&o, 8), o);
    assert_eq!(reversed_blocks(&o, 7), vec![6, 5, 4, 3, 2, 1, 0]);
}

#[test]
fn v8_in_order_guess_finds_the_seed() {
    let seed = XorShift128Plus::new(0x1234_5678_9abc_def0, 0x0fed_cba9_8765_4321);
    let mut st = seed;
    for _ in 0..5 {
        st.next_state();
    }
    let start = st;
    let mut obs = Vec::new();
    for _ in 0..200 {
        st.next_state();
        obs.push(v8::to_double(st.s0));
    }
    // The step is one-to-one, so the state five steps on serves the capture
    // from offset 0, and that is the first offset tried.
    assert_eq!(v8_in_order(&obs), Some((start, 0, 200)));
    assert_eq!(v8_in_order(&obs[5..]).map(|r| r.2), Some(195));
    // A reversed-cache capture is not an in-order one.
    assert_eq!(v8_in_order(&v8::generate(seed, 200)), None);
}

#[test]
fn v8_shifted_cache_guess_finds_the_seed() {
    let seed = XorShift128Plus::new(0x9e37_79b9_7f4a_7c15, 0x1234_5678_9abc_def0);
    let full = v8::generate(seed, 5 + 200);
    assert_eq!(v8_shifted_cache(&full[5..], 23, 17, 26), Some((seed, 5, 200)));
    // Other shifts do not reproduce V8's stream.
    assert_eq!(v8_shifted_cache(&full[5..], 23, 18, 5), None);
}

#[test]
fn sm_solver_search_order() {
    let short: Vec<u64> = (1..=5).collect();
    assert!(matches!(sm_z3_start(&short), SmStep::Exhausted));
    let seven: Vec<u64> = (1..=7).collect();
    match sm_z3_start(&seven) {
        SmStep::Ask(at, script) => {
            assert_eq!(at, SmProbe::FreeShift);
            assert_eq!(script, xorshift_script(&seven, 6, 53, Shifts::Free, true));
        }
        other => panic!("unexpected {other:?}"),
    }
    let ten: Vec<u64> = (1..=10).collect();
    match sm_z3_start(&ten) {
        SmStep::Ask(at, script) => {
            assert_eq!(at, SmProbe::Confirmed);
            assert_eq!(script, xorshift_script(&ten, 8, 53, Shifts::Fixed(23, 17, 26), true));
        }
        other => panic!("unexpected {other:?}"),
    }
    assert!(matches!(sm_z3_resume(&ten, SmProbe::Confirmed, None), SmStep::Ask(SmProbe::FreeShift, _)));
    assert!(matches!(sm_z3_resume(&ten, SmProbe::FreeShift, None), SmStep::Ask(SmProbe::Window(0), _)));
    // Windows 4 to 7 start at value 100, past the end of ten values.
    assert!(matches!(sm_z3_resume(&ten, SmProbe::Window(3), None), SmStep::Ask(SmProbe::Window(8), _)));
    assert!(matches!(sm_z3_resume(&ten, SmProbe::Window(31), None), SmStep::Exhausted));
    assert!(matches!(
        sm_z3_resume(&ten, SmProbe::Confirmed, Some((1, 2))),
        SmStep::Found(SmProbe::Confirmed, 1, 2)
    ));
    assert_eq!(SmProbe::FreeShift.time_limit(), 300);
    assert_eq!(SmProbe::Window(5).time_limit(), 60);
}

#[test]
fn sm_solver_window_stops_on_a_reproducing_state() {
    let seed = XorShift128Plus::new(0x1234_5678_9abc_def0, 0x0fed_cba9_8765_4321);
    let base = spidermonkey::generate(seed, 100);
    assert_eq!(sm_window_agreement(&base, 0, seed.s0, seed.s1), 64);
    assert!(matches!(
        sm_z3_resume(&base, SmProbe::Window(0), Some((seed.s0, seed.s1))),
        SmStep::Found(SmProbe::Window(0), _, _)
    ));
    // A wrong state reproduces nothing, so the search goes on to window 1.
    assert!(matches!(
        sm_z3_resume(&base, SmProbe::Window(0), Some((1, 2))),
        SmStep::Ask(SmProbe::Window(1), _)
    ));
}
