use browser_rnd::capture::{frame, Fault, Frame};
use browser_rnd::engines::Engine;
use browser_rnd::sample::Sample;

fn meta(f: &Frame) -> Vec<(String, String)> {
    f.meta
        .iter()
        .map(|(k, v)| (String::from_utf8(k.clone()).unwrap(), String::from_utf8(v.clone()).unwrap()))
        .collect()
}

fn values(f: &Frame) -> Vec<(usize, String)> {
    f.values.iter().map(|(n, v)| (*n, String::from_utf8(v.clone()).unwrap())).collect()
}

fn pair(k: &str, v: &str) -> (String, String) {
    (k.to_string(), v.to_string())
}

fn value(n: usize, v: &str) -> (usize, String) {
    (n, v.to_string())
}

/// The sample a frame describes, each value line read as a double.
fn doubles(f: &Frame) -> Vec<f64> {
    f.values.iter().map(|(_, v)| String::from_utf8(v.clone()).unwrap().parse().unwrap()).collect()
}

#[test]
fn parses_metadata_and_values() {
    let f = frame("# header\nua: Mozilla/5.0 Firefox/120\ncount: 3\n---\n0.1\n0.2\n0.3\n");
    assert_eq!(meta(&f), vec![pair("ua", "Mozilla/5.0 Firefox/120"), pair("count", "3")]);
    assert_eq!(values(&f), vec![value(5, "0.1"), value(6, "0.2"), value(7, "0.3")]);
    assert!(f.bad.is_none());
    assert_eq!(doubles(&f), vec![0.1, 0.2, 0.3]);
    let s = Sample { meta: meta(&f), values: vec![] };
    assert_eq!(s.user_agent(), Some("Mozilla/5.0 Firefox/120"));
    assert_eq!(s.guess_engine(), Some(Engine::SpiderMonkey));
}

#[test]
fn tolerates_missing_separator() {
    let f = frame("ua: x\n0.5\n0.6\n");
    assert_eq!(meta(&f), vec![pair("ua", "x")]);
    assert_eq!(values(&f), vec![value(2, "0.5"), value(3, "0.6")]);
    assert!(f.bad.is_none());
    assert_eq!(doubles(&f), vec![0.5, 0.6]);
}

#[test]
fn out_of_range_values_are_still_value_lines() {
    let f = frame("---\n1.5\n");
    assert_eq!(values(&f), vec![value(2, "1.5")]);
    assert!(f.bad.is_none());
}

#[test]
fn header_that_is_not_key_value_stops_the_frame() {
    let f = frame("ua: x\nhello world\n0.5\n");
    assert_eq!(meta(&f), vec![pair("ua", "x")]);
    assert!(f.values.is_empty());
    let (n, fault, text) = f.bad.clone().unwrap();
    assert_eq!((n, fault, text), (2, Fault::NotKeyValue, b"hello world".to_vec()));
}

#[test]
fn non_number_in_values_stops_the_frame() {
    let f = frame("---\n0.25\nkey: 1\n0.5\n");
    assert_eq!(values(&f), vec![value(2, "0.25")]);
    let (n, fault, text) = f.bad.clone().unwrap();
    assert_eq!((n, fault, text), (3, Fault::NotNumber, b"key: 1".to_vec()));
}

#[test]
fn lines_are_trimmed_of_unicode_whitespace() {
    let f = frame("  ua :\u{a0}Mozilla/5.0\u{3000}\r\n\t---\r\n 0.5\u{2009}\r\n");
    assert_eq!(meta(&f), vec![pair("ua", "Mozilla/5.0")]);
    assert_eq!(values(&f), vec![value(3, "0.5")]);
    assert!(f.bad.is_none());
}

#[test]
fn blank_lines_and_comments_count_as_lines() {
    let f = frame("\n\n# c\n---\n\n0.5");
    assert_eq!(values(&f), vec![value(6, "0.5")]);
}

#[test]
fn the_number_grammar_of_the_double_parser() {
    let ok = ["1", "1.", ".5", "-0.5", "+2e3", "1E-7", "inf", "-Infinity", "NaN", "007.100e+01"];
    for s in ok {
        let f = frame(&format!("---\n{s}\n"));
        assert!(f.bad.is_none(), "{s} should be a number");
        assert_eq!(values(&f), vec![value(2, s)]);
    }
    let bad = [".", "e5", "1e", "1e+", "+", "--1", "0x10", "1.2.3", "infin", "1 2"];
    for s in bad {
        let f = frame(&format!("---\n{s}\n"));
        assert!(f.values.is_empty(), "{s} should not be a number");
        assert_eq!(f.bad.clone().unwrap().1, Fault::NotNumber);
    }
}

#[test]
fn empty_text_has_nothing() {
    let f = frame("");
    assert!(f.meta.is_empty() && f.values.is_empty() && f.bad.is_none());
}

#[test]
fn later_header_lines_are_kept_in_order() {
    let f = frame("a: 1\nb: x:y\na: 2\n0.5\n");
    assert_eq!(meta(&f), vec![pair("a", "1"), pair("b", "x:y"), pair("a", "2")]);
}
