use plex::text::{
    decimal_text, is_whitespace, join, parse_integer, same_text, split_from, text_before, trim,
    trim_end_char,
};

#[test]
fn whitespace_is_what_unicode_says() {
    for c in '\u{0}'..=char::MAX {
        assert_eq!(is_whitespace(c), c.is_whitespace(), "{:x}", c as u32);
    }
}

#[test]
fn trimming_agrees_with_std() {
    for s in ["", " ", "a", " a b ", "\u{3000}x\r\n", "\u{200b}y\u{85}"] {
        assert_eq!(trim(s), s.trim());
        assert_eq!(trim(trim(s)), trim(s));
    }
    for s in ["", "/", "a//", "/a/b", "a/ "] {
        assert_eq!(trim_end_char(s, '/'), s.trim_end_matches('/'));
    }
}

#[test]
fn splitting_agrees_with_std() {
    for s in ["", "/", "a/b", "//a/\u{e9}b/", "abc"] {
        assert_eq!(split_from(s, 0, '/'), s.split('/').collect::<Vec<_>>());
    }
    assert_eq!(split_from("xx/a/b", 3, '/'), vec!["a", "b"]);
}

#[test]
fn integers_are_read_as_std_reads_them() {
    let cases = [
        "", "+", "-", "0", "-0", "+7", "007", "--1", "+-1", "1 ", " 1", "1_0", "1.0", "12a",
        "9223372036854775807", "9223372036854775808", "-9223372036854775808",
        "-9223372036854775809", "99999999999999999999999", "0000000000000000000000000000012",
        "\u{663}", "-\u{663}",
    ];
    for s in cases {
        assert_eq!(parse_integer(s), s.parse::<i64>().ok(), "{s:?}");
    }
}

#[test]
fn integers_survive_being_written() {
    for n in [0u64, 7, 10, 99, 100, 1_700_000_000, u64::MAX] {
        assert_eq!(decimal_text(n), n.to_string());
    }
    for n in [0i64, -1, 42, i64::MIN, i64::MAX] {
        assert_eq!(parse_integer(&n.to_string()), Some(n));
    }
}

#[test]
fn order_and_equality_agree_with_std() {
    let words = ["", "a", "ab", "b", "\u{e9}", "z", "\u{ffff}", "\u{10000}"];
    for a in words {
        for b in words {
            assert_eq!(text_before(a, b), a < b);
            assert_eq!(same_text(a, b), a == b);
        }
    }
}

#[test]
fn joining_puts_the_separator_between() {
    let parts: Vec<String> = ["a", "", "c"].iter().map(|p| p.to_string()).collect();
    assert_eq!(join(&parts, ", "), "a, , c");
    assert_eq!(join(&parts[..1], ", "), "a");
    assert_eq!(join(&[], ", "), "");
}
