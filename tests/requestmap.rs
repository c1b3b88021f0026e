use resserve::requestmap::{ParseErrorKind, RequestMap};

fn err_of(src: &str) -> (usize, ParseErrorKind) {
    match RequestMap::parse_str(src) {
        Ok(_) => panic!("accepted {:?}", src),
        Err(e) => (e.line_num, e.kind),
    }
}

#[test]
fn single_path_entry() {
    let m = RequestMap::parse_str("/index = pages/home.html\n").unwrap();
    assert_eq!(m.get("/index"), Some("pages/home.html"));
    assert_eq!(m.get("/other"), None);
}

#[test]
fn whitespace_around_key_and_value_is_ignored() {
    let m = RequestMap::parse_str("  /a\t=  x.txt  \r\n/b=y'2 ,  z ' 3").unwrap();
    assert_eq!(m.get("/a"), Some("x.txt"));
    assert_eq!(m.resolve("/b", 0), Some("y"));
    assert_eq!(m.resolve("/b", 1), Some("y"));
    assert_eq!(m.resolve("/b", 2), Some("z"));
    assert_eq!(m.resolve("/b", 4), Some("z"));
}

#[test]
fn weighted_draws_select_by_share() {
    let m = RequestMap::parse_str("key = a'10,b'30").unwrap();
    assert_eq!(m.resolve("key", 0), Some("a"));
    assert_eq!(m.resolve("key", 9), Some("a"));
    assert_eq!(m.resolve("key", 10), Some("b"));
    assert_eq!(m.resolve("key", 39), Some("b"));
    assert_eq!(m.resolve("nokey", 0), None);
}

#[test]
fn zero_weight_candidate_is_never_selected() {
    let m = RequestMap::parse_str("k = a'0,b'5,c'0").unwrap();
    for d in 0..5 {
        assert_eq!(m.resolve("k", d), Some("b"));
    }
    for _ in 0..200 {
        assert_eq!(m.get("k"), Some("b"));
    }
}

#[test]
fn weighted_frequency_converges() {
    let m = RequestMap::parse_str("key = a'10,b'30").unwrap();
    let draws = 40000;
    let mut b = 0;
    for _ in 0..draws {
        match m.get("key") {
            Some("b") => b += 1,
            Some("a") => {}
            other => panic!("unexpected {:?}", other),
        }
    }
    let freq = b as f64 / draws as f64;
    assert!((freq - 0.75).abs() < 0.02, "frequency of b was {}", freq);
}

#[test]
fn later_line_replaces_earlier() {
    let m = RequestMap::parse_str("k = one\nk = two\n").unwrap();
    assert_eq!(m.get("k"), Some("two"));
}

#[test]
fn empty_source_gives_empty_table() {
    let m = RequestMap::parse_str("").unwrap();
    assert_eq!(m.get(""), None);
    assert_eq!(m.get("k"), None);
}

#[test]
fn missing_equals_is_reported_with_line() {
    assert_eq!(err_of("a = b\nno delimiter here\n"), (2, ParseErrorKind::MissingDelim('=')));
}

#[test]
fn blank_line_is_missing_delimiter() {
    assert_eq!(err_of("a = b\n\nc = d"), (2, ParseErrorKind::MissingDelim('=')));
}

#[test]
fn empty_value_is_invalid_path() {
    assert_eq!(err_of("a =   "), (1, ParseErrorKind::InvalidPath));
    assert_eq!(err_of("=   "), (1, ParseErrorKind::InvalidPath));
}

#[test]
fn empty_key_is_invalid_key() {
    assert_eq!(err_of("a = b\nc = d\n  = x"), (3, ParseErrorKind::InvalidKey));
}

#[test]
fn candidate_without_weight_is_missing_quote() {
    assert_eq!(err_of("k = a'1,b"), (1, ParseErrorKind::MissingDelim('\'')));
}

#[test]
fn malformed_weight_is_invalid() {
    assert_eq!(err_of("k = a'x,b'2"), (1, ParseErrorKind::InvalidWeight));
    assert_eq!(err_of("k = a'-1,b'2"), (1, ParseErrorKind::InvalidWeight));
    assert_eq!(err_of("k = a',b'2"), (1, ParseErrorKind::InvalidWeight));
    assert_eq!(err_of("k = a'4294967296,b'2"), (1, ParseErrorKind::InvalidWeight));
}

#[test]
fn largest_weight_is_accepted() {
    let m = RequestMap::parse_str("k = a'4294967295,b'+1").unwrap();
    assert_eq!(m.resolve("k", 4294967294), Some("a"));
    assert_eq!(m.resolve("k", 4294967295), Some("b"));
}

#[test]
fn zero_total_weight_is_rejected() {
    assert_eq!(err_of("ok = x\nk = a'0,b'0"), (2, ParseErrorKind::InvalidWeight));
}

#[test]
fn first_fault_in_a_line_is_reported() {
    assert_eq!(err_of("k = a'x,b"), (1, ParseErrorKind::InvalidWeight));
    assert_eq!(err_of("k = a,b'x"), (1, ParseErrorKind::MissingDelim('\'')));
}

#[test]
fn single_entry_keeps_quote_in_path() {
    let m = RequestMap::parse_str("k = a'10").unwrap();
    assert_eq!(m.get("k"), Some("a'10"));
}

#[test]
fn table_listing() {
    let m = RequestMap::parse_str("/a = x.txt\n/b = p'1, q'20").unwrap();
    let text = m.to_text();
    let mut lines: Vec<&str> = text.lines().collect();
    lines.sort();
    assert_eq!(lines, vec!["/a -> x.txt", "/b -> p'1 q'20 "]);
    assert!(text.ends_with('\n'));
    assert_eq!(RequestMap::parse_str("").unwrap().to_text(), "");
}
