use browser_rnd::analyze::{agrees, fingerprint, mantissa_resolution, report};
use browser_rnd::engines::{spidermonkey, v8, Engine};
use browser_rnd::prng::XorShift128Plus;
use browser_rnd::sample::Sample;

fn sample(ua: &str, values: Vec<u64>) -> Sample {
    Sample { meta: vec![("ua".to_string(), ua.to_string())], values }
}

#[test]
fn detects_v8_resolution() {
    // V8's 52-bit numerators sit on the 2^-53 grid as even numbers.
    let vals: Vec<u64> = v8::generate(XorShift128Plus::new(1, 2), 200).iter().map(|m| m * 2).collect();
    assert_eq!(mantissa_resolution(&vals), 52);
}

#[test]
fn detects_spidermonkey_resolution() {
    let vals = spidermonkey::generate(XorShift128Plus::new(1, 2), 200);
    assert_eq!(mantissa_resolution(&vals), 53);
}

#[test]
fn resolution_of_zeros_and_coarse_values() {
    assert_eq!(mantissa_resolution(&[0, 0]), 0);
    // 0.5 needs one fractional bit, 0.25 two.
    assert_eq!(mantissa_resolution(&[1 << 52, 1 << 51]), 2);
}

#[test]
fn user_agent_guesses() {
    let cases = [
        ("Mozilla/5.0 (Windows NT 10.0) Gecko/20100101 Firefox/120.0", Some(Engine::SpiderMonkey)),
        ("Mozilla/5.0 AppleWebKit/537.36 (KHTML) Chrome/120.0 Safari/537.36 Edg/120", Some(Engine::V8)),
        ("Mozilla/4.0 (compatible; MSIE 6.0; Windows NT 5.1)", Some(Engine::JScript)),
        ("Mozilla/5.0 (iPhone) AppleWebKit/605.1.15 Version/16.0 Mobile Safari/604.1", Some(Engine::JavaScriptCore)),
        ("Dart/3.2 (dart:io)", Some(Engine::Dart)),
        ("curl/8.0", None),
    ];
    for (ua, want) in cases {
        assert_eq!(sample(ua, vec![]).guess_engine(), want, "{ua}");
    }
}

#[test]
fn later_ua_header_wins() {
    let s = Sample {
        meta: vec![
            ("ua".to_string(), "Firefox".to_string()),
            ("platform".to_string(), "Win32".to_string()),
            ("ua".to_string(), "Chrome".to_string()),
        ],
        values: vec![],
    };
    assert_eq!(s.user_agent(), Some("Chrome"));
    let none = Sample { meta: vec![], values: vec![] };
    assert_eq!(none.user_agent(), None);
    assert_eq!(none.guess_engine(), None);
}

#[test]
fn fingerprint_agreement() {
    let vals = spidermonkey::generate(XorShift128Plus::new(5, 6), 100);
    let fp = fingerprint(&sample("Mozilla/5.0 Firefox/120", vals.clone()));
    assert_eq!(fp.resolution_bits, 53);
    assert_eq!(fp.structural_candidates, vec![Engine::SpiderMonkey, Engine::JavaScriptCore, Engine::Dart]);
    assert_eq!(fp.ua_guess, Some(Engine::SpiderMonkey));
    assert!(agrees(&fp));
    let fp = fingerprint(&sample("Chrome/100", vals));
    assert!(!agrees(&fp));
    let coarse = fingerprint(&sample("x", vec![1 << 40]));
    assert_eq!(coarse.structural_candidates, vec![Engine::JScript]);
}

#[test]
fn report_of_an_agreeing_sample() {
    let vals = spidermonkey::generate(XorShift128Plus::new(1, 2), 12);
    let s = sample("Mozilla/5.0 Gecko/20100101 Firefox/120.0", vals);
    assert_eq!(
        report(&s),
        "values:        12\n\
         userAgent:     Mozilla/5.0 Gecko/20100101 Firefox/120.0\n\
         resolution:    53 bits\n\
         ua guess:      spidermonkey\n\
         structural:    spidermonkey, javascriptcore, dart\n\
         finding:       spidermonkey (UA and structure agree)\n"
    );
}

#[test]
fn report_of_a_conflict_and_of_no_useragent() {
    let vals: Vec<u64> = v8::generate(XorShift128Plus::new(1, 2), 3).iter().map(|m| m * 2).collect();
    let s = sample("Mozilla/5.0 Firefox/120.0", vals.clone());
    let text = report(&s);
    assert!(text.ends_with("finding:       conflict — UA says spidermonkey, structure says v8\n"), "{text}");
    let bare = Sample { meta: vec![], values: vec![1 << 52, 1 << 51] };
    assert_eq!(
        report(&bare),
        "values:        2\n\
         resolution:    2 bits\n\
         ua guess:      unknown\n\
         structural:    jscript\n\
         finding:       jscript (structure only)\n"
    );
}
