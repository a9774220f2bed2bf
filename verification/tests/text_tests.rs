use scop::text::{
    is_ascii_whitespace, is_whitespace, parse_unsigned_bytes, parse_unsigned_chars,
    split_ascii_whitespace, split_lines, split_whitespace,
};

fn words(v: Vec<Vec<u8>>) -> Vec<String> {
    v.into_iter().map(|w| String::from_utf8(w).unwrap()).collect()
}

fn chars(s: &str) -> Vec<char> {
    s.chars().collect()
}

#[test]
fn ascii_words_split_at_ascii_whitespace() {
    assert_eq!(words(split_ascii_whitespace(b"  1 2\t3\r")), vec!["1", "2", "3"]);
    assert_eq!(words(split_ascii_whitespace(b"")), Vec::<String>::new());
    assert_eq!(words(split_ascii_whitespace(b" \t ")), Vec::<String>::new());
    // The vertical tab is not ASCII whitespace for `split_ascii_whitespace`.
    assert_eq!(words(split_ascii_whitespace(b"1\x0b2")), vec!["1\u{b}2"]);
}

#[test]
fn ascii_words_match_std() {
    for s in ["a b", "  x  y z ", "1\x0c2\n3", "", "abc"] {
        let expected: Vec<String> = s.split_ascii_whitespace().map(String::from).collect();
        assert_eq!(words(split_ascii_whitespace(s.as_bytes())), expected);
    }
}

#[test]
fn lines_match_std() {
    for s in ["a\nb", "a\r\nb\r\n", "\n", "", "x\n\ny", "last\r", "a\rb\n"] {
        let expected: Vec<String> = s.lines().map(String::from).collect();
        assert_eq!(words(split_lines(s.as_bytes())), expected);
    }
}

#[test]
fn unicode_words_split_at_unicode_whitespace() {
    let w = split_whitespace(&chars("12\u{a0}34 \u{3000}5"));
    assert_eq!(w, vec![chars("12"), chars("34"), chars("5")]);
    let expected: Vec<Vec<char>> = "a\u{b}b\u{2028}c".split_whitespace().map(chars).collect();
    assert_eq!(split_whitespace(&chars("a\u{b}b\u{2028}c")), expected);
}

#[test]
fn whitespace_predicates_match_std() {
    for b in 0u8..=255 {
        assert_eq!(is_ascii_whitespace(b), b.is_ascii_whitespace());
    }
    for c in ['\u{85}', '\u{a0}', '\u{1680}', '\u{2000}', '\u{200a}', '\u{200b}', '\u{202f}', '\u{205f}', '\u{3000}', 'x', '\u{1c}'] {
        assert_eq!(is_whitespace(c), c.is_whitespace());
    }
}

#[test]
fn unsigned_numbers_follow_std_parse() {
    let max32 = u32::MAX as u64;
    assert_eq!(parse_unsigned_bytes(b"42", max32), Some(42));
    assert_eq!(parse_unsigned_bytes(b"+7", max32), Some(7));
    assert_eq!(parse_unsigned_bytes(b"007", max32), Some(7));
    assert_eq!(parse_unsigned_bytes(b"4294967295", max32), Some(4294967295));
    assert_eq!(parse_unsigned_bytes(b"4294967296", max32), None);
    assert_eq!(parse_unsigned_bytes(b"99999999999999999999", max32), None);
    assert_eq!(parse_unsigned_bytes(b"", max32), None);
    assert_eq!(parse_unsigned_bytes(b"+", max32), None);
    assert_eq!(parse_unsigned_bytes(b"-1", max32), None);
    assert_eq!(parse_unsigned_bytes(b"1a", max32), None);
    assert_eq!(parse_unsigned_chars(&chars("65535"), 0xFFFF), Some(65535));
    assert_eq!(parse_unsigned_chars(&chars("65536"), 0xFFFF), None);
    assert_eq!(parse_unsigned_chars(&chars("２"), 0xFFFF), None);
    for s in ["0", "12", "+3", "", "+", "-0", "1 ", " 1", "4294967295", "4294967296"] {
        assert_eq!(parse_unsigned_bytes(s.as_bytes(), max32), s.parse::<u32>().ok().map(u64::from));
        assert_eq!(parse_unsigned_chars(&chars(s), 0xFFFF), s.parse::<u16>().ok().map(u64::from));
    }
}

#[test]
fn words_are_nonempty_and_hold_no_whitespace() {
    for s in ["  a  bb\tccc \r\n", "", "x", " \x0c "] {
        for w in split_ascii_whitespace(s.as_bytes()) {
            assert!(!w.is_empty());
            assert!(w.iter().all(|b| !b.is_ascii_whitespace()));
        }
    }
}
