use snippet_library::text::{is_white, 
    is_blank, join, parse_u64, replace_all, trim, trim_end, u64_to_decimal,
};

#[test]
fn trims_unicode_whitespace() {
    assert_eq!(trim("  New  "), "New");
    assert_eq!(trim("\u{3000}\u{a0}x y\u{2028}\t"), "x y");
    assert_eq!(trim_end("a \r\n"), "a");
    assert_eq!(trim_end("  a"), "  a");
    assert_eq!(trim(""), "");
    assert!(is_blank(" \t\n\u{85}"));
    assert!(!is_blank(" x "));
}

#[test]
fn decimal_numbers_round_trip() {
    for n in [0u64, 7, 10, 99, 100, 12345, u64::MAX] {
        assert_eq!(u64_to_decimal(n), n.to_string());
        assert_eq!(parse_u64(&n.to_string()), Some(n));
    }
    assert_eq!(parse_u64("+5"), Some(5));
    assert_eq!(parse_u64("+"), None);
    assert_eq!(parse_u64(""), None);
    assert_eq!(parse_u64("1a"), None);
    assert_eq!(parse_u64(" 1"), None);
    assert_eq!(parse_u64("18446744073709551616"), None);
    assert_eq!(parse_u64("99999999999999999999x"), None);
}

#[test]
fn parse_agrees_with_std() {
    for s in ["0", "+0", "00012", "-3", "+-3", "4294967296", "18446744073709551615", "1_000"] {
        assert_eq!(parse_u64(s), s.parse::<u64>().ok(), "{s}");
    }
}

#[test]
fn replaces_left_to_right() {
    assert_eq!(replace_all("aaa", "aa", "b"), "ba");
    assert_eq!(replace_all("a\\b\\c", "\\", "/"), "a/b/c");
    assert_eq!(replace_all("{{{x}}} and {{{x}}}", "{{{x}}}", "y"), "y and y");
    assert_eq!(replace_all("none", "zz", "y"), "none");
    for (s, p, w) in [("abcabc", "bc", "X"), ("xxxx", "xx", "x"), ("é€é", "€", "e")] {
        assert_eq!(replace_all(s, p, w), s.replace(p, w));
    }
}

#[test]
fn joins_with_separator() {
    let parts = vec![":a".to_string(), ":b".to_string(), ":c".to_string()];
    assert_eq!(join(&parts, ", "), ":a, :b, :c");
    assert_eq!(join(&vec![":only".to_string()], ", "), ":only");
    assert_eq!(join(&Vec::new(), ", "), "");
}

#[test]
fn sorts_like_std() {
    let items: Vec<String> = ["b.yml", "a/z.yml", "a.yml", "", "é.yml", "Z.yml", "a.yml", "ab"]
        .iter()
        .map(|s| s.to_string())
        .collect();
    let mut expected = items.clone();
    expected.sort();
    assert_eq!(snippet_library::text::sort_texts(items), expected);
    assert!(snippet_library::text::text_at_most("/cfg/match/base.yml", "/cfg/match/library/snippets.yml"));
    assert!(!snippet_library::text::text_at_most("b", "a"));
    assert!(snippet_library::text::text_at_most("a", "a"));
}

#[test]
fn whitespace_follows_unicode() {
    for c in [' ', '\t', '\n', '\r', '\u{0B}', '\u{0C}', '\u{85}', '\u{A0}', '\u{1680}', '\u{2000}', '\u{200A}', '\u{2028}', '\u{2029}', '\u{202F}', '\u{205F}', '\u{3000}'] {
        assert!(is_white(c), "{c:?}");
        assert_eq!(is_white(c), c.is_whitespace());
    }
    for c in ['a', '0', '\u{200B}', '\u{FEFF}', '\u{180E}', '_'] {
        assert!(!is_white(c), "{c:?}");
        assert_eq!(is_white(c), c.is_whitespace());
    }
}
