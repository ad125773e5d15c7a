use browser_rnd::engines::jsc::GameRand;
use browser_rnd::engines::{dart, hermes, jsc, jscript, spidermonkey, spidermonkey_legacy, v8, v8_legacy, v8_libc};
use browser_rnd::predict::{identify, question, recover, recover_resume, recover_start, Predictor, Stage, Step};
use browser_rnd::smt::{xorshift_script, Shifts};
use browser_rnd::prng::XorShift128Plus;

// For each engine that needs no solver: generate a known stream, hand the
// predictor a middle slice, and check it reconstructs the future and the past
// exactly.
fn check(full: &[u64], grid: u32, engine: &str) {
    let (a, b) = (40usize, 110usize);
    let p = recover(&full[a..b], grid).unwrap_or_else(|| panic!("{engine}: recover failed"));
    assert_eq!(p.id().engine, engine, "{engine}: wrong engine ({})", p.id().engine);
    assert_eq!(p.id().grid_bits, grid);
    assert_eq!(p.forward(30), full[b..b + 30].to_vec(), "{engine}: forward");
    assert_eq!(p.backward(a), full[..a].to_vec(), "{engine}: backward");
    assert_eq!(p.backward(10), p.backward(a)[a - 10..].to_vec(), "{engine}: backward suffix");
}

#[test]
fn drand48_sm() {
    check(&spidermonkey_legacy::generate(0x1234_5678_9abc, 200), 53, "SpiderMonkey");
}

#[test]
fn drand48_ie() {
    check(&jscript::generate(0x2233_4455_6677, 200), 54, "JScript/Chakra");
}

#[test]
fn mwc() {
    let g = v8_legacy::Mwc { s0: 0x1111_2222, s1: 0x3333_4444, mult0: 18273, mult1: 36969, combine: v8_legacy::Combine::Shift16 };
    check(&g.generate(200), 32, "V8");
}

#[test]
fn mwc_every_shipped_era() {
    let eras = [
        (18030, 36969, v8_legacy::Combine::Shift16, "MWC1616 era 2/3 (<<16)"),
        (36969, 18273, v8_legacy::Combine::Shift16, "MWC1616 era 2/3 (<<16)"),
        (18273, 36969, v8_legacy::Combine::Shift14, "MWC1616 era 1 (<<14)"),
    ];
    for (mult0, mult1, combine, alg) in eras {
        // High halves below the multipliers: stepping back finds each state itself.
        let g = v8_legacy::Mwc { s0: 0x0555_6666, s1: 0x0777_8888, mult0, mult1, combine };
        check(&g.generate(200), 32, "V8");
        let p = recover(&g.generate(200)[40..110], 32).unwrap();
        assert_eq!(p.id().algorithm, alg);
    }
}

#[test]
fn libc() {
    check(&v8_libc::generate(0x0bad_f00d, 200), 30, "V8");
}

#[test]
fn gamerand() {
    let full: Vec<u64> = jsc::generate(GameRand::seeded(0xdead_beef), 200).iter().map(|&x| x as u64).collect();
    check(&full, 32, "JavaScriptCore");
}

#[test]
fn modern_v8() {
    let full = v8::generate(XorShift128Plus::new(0x9e37_79b9_7f4a_7c15, 0x1234_5678_9abc_def0), 200);
    check(&full, 52, "V8");
}

#[test]
fn v8_53_bit_conversion() {
    let full = v8::generate_53(XorShift128Plus::new(0x9e37_79b9_7f4a_7c15, 0x1234_5678_9abc_def0), 200);
    check(&full, 53, "V8");
    let p = recover(&full[40..110], 53).unwrap();
    assert_eq!(p.id().browsers, "Chrome 135–143");
}

#[test]
fn dart_flutter() {
    check(&dart::generate(dart::seeded(42), 200), 53, "Dart");
}

#[test]
fn hermes_minstd() {
    // Hermes' grid is the non-dyadic 1/R², written as grid 0.
    check(&hermes::generate(hermes::seeded(0x1234_5678), 200), 0, "Hermes");
}

#[test]
fn unknown_grid_is_not_recovered() {
    let full = v8_libc::generate(1, 20);
    assert!(recover(&full, 31).is_none());
    assert!(matches!(recover_start(&full, 31), Step::Done(None)));
}

#[test]
fn modern_spidermonkey_by_solver_answer() {
    let seed = XorShift128Plus::new(0x0f0f_0f0f_1234_5678, 0xdead_beef_0bad_f00d);
    let full = spidermonkey::generate(seed, 200);
    let obs = &full[..150];
    let stage = match recover_start(obs, 53) {
        Step::Ask(stage, targets) => {
            assert_eq!(targets, obs[..8].to_vec());
            stage
        }
        Step::Done(_) => panic!("drand48 should not reproduce an xorshift128+ stream"),
    };
    assert_eq!(stage, Stage::SpiderMonkey);
    // A wrong answer ends the recovery.
    assert!(matches!(recover_resume(obs, stage, Some((1, 2))), Step::Done(None)));
    // The right one yields a predictor positioned at the capture.
    let p: Predictor = match recover_resume(obs, stage, Some((seed.s0, seed.s1))) {
        Step::Done(Some(p)) => p,
        _ => panic!("state not accepted"),
    };
    assert_eq!(p.id().engine, "SpiderMonkey");
    assert_eq!(p.forward(50), full[150..].to_vec());
}

#[test]
fn early_v8_then_5x_questions() {
    let seed = XorShift128Plus::new(0x1357_9bdf_2468_ace0, 0x0123_4567_89ab_cdef);
    // Stage B: in-order sums.
    let early = v8::generate_early(seed, 120);
    let stage = match recover_start(&early[10..90], 52) {
        Step::Ask(stage, _) => stage,
        Step::Done(_) => panic!("modern V8 should not reproduce a Stage-B stream"),
    };
    assert_eq!(stage, Stage::Early);
    let mut st = seed;
    for _ in 0..10 {
        st.next_state();
    }
    match recover_resume(&early[10..90], Stage::Early, Some((st.s0, st.s1))) {
        Step::Done(Some(p)) => {
            assert_eq!(p.forward(30), early[90..].to_vec());
            assert_eq!(p.backward(10), early[..10].to_vec());
        }
        _ => panic!("stage B not accepted"),
    }
    // With no Stage-B answer the 5.x questions follow, offset by offset.
    match recover_resume(&early[10..90], Stage::Early, None) {
        Step::Ask(Stage::Rev5x(0), w) => assert_eq!(w.len(), 8),
        _ => panic!("expected the first 5.x question"),
    }
    match recover_resume(&early[10..90], Stage::Rev5x(53), None) {
        Step::Done(None) => {}
        _ => panic!("the offsets end at 53"),
    }
}

#[test]
fn v8_5x_by_solver_answer() {
    let seed = XorShift128Plus::new(0x0bad_cafe_dead_beef, 0x1111_2222_3333_4444);
    let full = v8::generate_5x(seed, 300);
    let obs = &full[7..207];
    match recover_resume(obs, Stage::Rev5x(7), Some((seed.s0, seed.s1))) {
        Step::Done(Some(p)) => {
            assert_eq!(p.id().algorithm, "xorshift128+ reversed-62 ((s0+s1)&mask52, V8 5.1–5.3)");
            assert_eq!(p.forward(50), full[207..257].to_vec());
            assert_eq!(p.backward(7), full[..7].to_vec());
        }
        _ => panic!("5.x state not accepted"),
    }
}

#[test]
fn presto_is_identified_but_not_predictable() {
    let id = identify(None, 53).expect("presto");
    assert_eq!(id.engine, "Presto");
    assert!(!id.predictable);
    assert!(identify(None, 52).is_none());
    let p = recover(&spidermonkey_legacy::generate(5, 10), 53).expect("drand48");
    assert_eq!(identify(Some(p), 53).unwrap().engine, "SpiderMonkey");
}

#[test]
fn solver_questions_per_stage() {
    let t: Vec<u64> = (1..=8).collect();
    assert_eq!(question(Stage::SpiderMonkey, &t), xorshift_script(&t, 8, 53, Shifts::Fixed(23, 17, 26), true));
    assert_eq!(question(Stage::Early, &t), xorshift_script(&t, 8, 52, Shifts::Fixed(23, 17, 26), true));
    assert_eq!(question(Stage::Rev5x(3), &t), xorshift_script(&t, 8, 52, Shifts::Fixed(23, 17, 26), true));
    assert_eq!(
        (Stage::Early.time_limit(), Stage::Rev5x(0).time_limit(), Stage::SpiderMonkey.time_limit()),
        (120, 30, 60)
    );
    let text = String::from_utf8(question(Stage::SpiderMonkey, &t)).unwrap();
    assert!(text.contains("(assert (= ((_ extract 52 0) (bvadd s1 F_0)) (_ bv1 53)))"), "{text}");
}

#[test]
fn v8_stage_a_by_solver_answer() {
    // High halves below the multipliers, so stepping back finds each state.
    let (s0, s1) = (0x0123_4567u32, 0x0765_4321u32);
    let full = v8_legacy::generate_stage_a(s0, s1, 200);
    let obs = &full[40..110];
    let stage = match recover_start(obs, 32) {
        Step::Ask(stage, targets) => {
            assert_eq!(targets, obs[..8].to_vec());
            stage
        }
        Step::Done(_) => panic!("no solver-free era should reproduce Stage A"),
    };
    assert_eq!(stage, Stage::StageA);
    let text = String::from_utf8(question(stage, &obs[..8])).unwrap();
    assert!(text.contains("(bvmul (_ bv18030 32) (bvand a0 #x0000ffff))"), "{text}");
    assert!(text.ends_with("(check-sat)\n(get-value (a0 b0))\n"));
    assert!(matches!(recover_resume(obs, stage, Some((1, 2))), Step::Done(None)));
    assert!(matches!(recover_resume(obs, stage, Some((1 << 40, 2))), Step::Done(None)));
    // The lane states at the first observed value.
    let (mut a, mut b) = (s0, s1);
    for _ in 0..40 {
        a = step(a, 18030);
        b = step(b, 36969);
    }
    let p = match recover_resume(obs, stage, Some((a as u64, b as u64))) {
        Step::Done(Some(p)) => p,
        _ => panic!("state not accepted"),
    };
    assert_eq!(p.id().algorithm, "MWC + %_ConstructDouble (4.9 Stage A)");
    assert_eq!(p.forward(30), full[110..140].to_vec());
    assert_eq!(p.backward(40), full[..40].to_vec());
}

fn step(s: u32, mult: u64) -> u32 {
    (mult * (s as u64 & 0xffff) + (s as u64 >> 16)) as u32
}
