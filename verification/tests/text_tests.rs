use neurogit::text::{
    chars_of, contains_chars, decimal_string, parse_u32_or_zero, parse_unsigned_chars,
    parse_usize_or_zero, replace_char_chars, split_words, starts_with_chars, strip_prefixes_chars,
    trim, white_space,
};

fn cs(s: &str) -> Vec<char> {
    s.chars().collect()
}

fn text(v: &[char]) -> String {
    v.iter().collect()
}

#[test]
fn trim_removes_surrounding_white_space() {
    assert_eq!(trim("  lsp start \n"), "lsp start");
    assert_eq!(trim("\t\r\n"), "");
    assert_eq!(trim(""), "");
    assert_eq!(trim("\u{3000}head\u{a0}"), "head");
    assert_eq!(trim("a  b"), "a  b");
}

#[test]
fn white_space_follows_char_is_whitespace() {
    for c in ['\t', '\n', '\u{b}', '\u{c}', '\r', ' ', '\u{85}', '\u{a0}', '\u{1680}', '\u{2000}', '\u{200a}', '\u{2028}', '\u{2029}', '\u{202f}', '\u{205f}', '\u{3000}'] {
        assert!(white_space(c));
        assert!(c.is_whitespace());
    }
    for c in ['a', '0', '\u{200b}', '\u{feff}', '_', '\u{0}'] {
        assert!(!white_space(c));
        assert_eq!(c.is_whitespace(), false);
    }
}

#[test]
fn split_words_matches_split_whitespace() {
    let line = "  lsp   references\tsrc/main.rs 3 \u{3000}4  ";
    let words: Vec<String> = split_words(line).iter().map(|w| text(w)).collect();
    let expected: Vec<String> = line.split_whitespace().map(|w| w.to_string()).collect();
    assert_eq!(words, expected);
    assert_eq!(words, vec!["lsp", "references", "src/main.rs", "3", "4"]);
    assert!(split_words("   ").is_empty());
    assert!(split_words("").is_empty());
}

#[test]
fn numbers_parse_as_str_parse_does() {
    assert_eq!(parse_u32_or_zero(&cs("42")), 42);
    assert_eq!(parse_u32_or_zero(&cs("+12")), 12);
    assert_eq!(parse_u32_or_zero(&cs("007")), 7);
    assert_eq!(parse_u32_or_zero(&cs("4294967295")), 4294967295);
    assert_eq!(parse_u32_or_zero(&cs("4294967296")), 0);
    assert_eq!(parse_u32_or_zero(&cs("-1")), 0);
    assert_eq!(parse_u32_or_zero(&cs("+")), 0);
    assert_eq!(parse_u32_or_zero(&cs("")), 0);
    assert_eq!(parse_u32_or_zero(&cs(" 1")), 0);
    assert_eq!(parse_u32_or_zero(&cs("1x")), 0);
    assert_eq!(parse_usize_or_zero(&cs("120")), 120);
    assert_eq!(parse_unsigned_chars(&cs("255"), 255), Some(255));
    assert_eq!(parse_unsigned_chars(&cs("256"), 255), None);
    assert_eq!(parse_unsigned_chars(&cs("18446744073709551615"), u64::MAX), Some(u64::MAX));
    assert_eq!(parse_unsigned_chars(&cs("18446744073709551616"), u64::MAX), None);
}

#[test]
fn decimal_then_parse_gives_the_number_back() {
    for n in [0u64, 7, 10, 99, 4096, 4294967295] {
        let d = decimal_string(n);
        assert_eq!(d, n.to_string());
        assert_eq!(parse_u32_or_zero(&cs(&d)) as u64, n);
    }
    assert_eq!(decimal_string(u64::MAX), "18446744073709551615");
}

#[test]
fn prefixes_are_stripped_as_trim_start_matches_does() {
    assert_eq!(text(&strip_prefixes_chars(&cs("file:///home/a.rs"), &cs("file://"))), "/home/a.rs");
    assert_eq!(text(&strip_prefixes_chars(&cs("file://file://x"), &cs("file://"))), "x");
    assert_eq!(text(&strip_prefixes_chars(&cs("/plain"), &cs("file://"))), "/plain");
    assert_eq!(text(&strip_prefixes_chars(&cs("abc"), &cs(""))), "abc");
    assert!(starts_with_chars(&cs("Content-Length: 3"), &cs("Content-Length:")));
    assert!(!starts_with_chars(&cs("Content-Type: x"), &cs("Content-Length:")));
    assert!(contains_chars(&cs("file:///p/src/main.rs"), &cs("/src/")));
    assert!(!contains_chars(&cs("file:///p/lib/main.rs"), &cs("/src/")));
}

#[test]
fn replace_char_replaces_every_occurrence() {
    assert_eq!(text(&replace_char_chars(&cs("a\"b\"c"), '"', &['\\', '"'])), "a\\\"b\\\"c");
    assert_eq!(text(&replace_char_chars(&cs("C:\\x\\y"), '\\', &['/'])), "C:/x/y");
    assert_eq!(text(&replace_char_chars(&cs("none"), '"', &['x'])), "none");
    assert_eq!(chars_of("héllo"), cs("héllo"));
}
