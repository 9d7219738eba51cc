use tomato::codec::{chars_of, parse_natural, parse_quoted, parse_u64, push_quoted, same_text};

#[test]
fn quoted_text_matches_serde_json() {
    for s in ["", "plain", "a\"b", "back\\slash", "\u{0}\u{1f}\u{7f}", "\t\n\r\u{8}\u{c}", "é ü 日本"] {
        let mut out = String::new();
        push_quoted(&mut out, s);
        assert_eq!(out, serde_json::to_string(s).unwrap());
        let t = chars_of(&out);
        let (back, end) = parse_quoted(&t, 0).unwrap();
        assert_eq!(back, s);
        assert_eq!(end, t.len());
    }
}

#[test]
fn parse_natural_is_canonical() {
    let t = chars_of("0123");
    assert_eq!(parse_natural(&t, 0), None);
    let t = chars_of("123,");
    assert_eq!(parse_natural(&t, 0), Some((123, 3)));
    let t = chars_of("18446744073709551616");
    assert_eq!(parse_natural(&t, 0), None);
}

#[test]
fn parse_u64_reads_digits() {
    assert_eq!(parse_u64("007"), Some(7));
    assert_eq!(parse_u64(""), None);
    assert_eq!(parse_u64("1a"), None);
    assert_eq!(parse_u64("18446744073709551615"), Some(u64::MAX));
    assert_eq!(parse_u64("18446744073709551616"), None);
}

#[test]
fn same_text_compares() {
    assert!(same_text("0.2", "0.2"));
    assert!(!same_text("0.2", "0.20"));
}
