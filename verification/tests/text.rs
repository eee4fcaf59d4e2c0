//! String primitives and numerals.

use snapref::decimal::{decimal, parse_i64, parse_u64, parse_usize, signed_decimal};
use snapref::order::{is_before, sort};
use snapref::text::{
    is_white_space, lines, same, split, split_once, split_path, split_words, strip_prefix, trim,
};

#[test]
fn white_space_is_that_of_unicode() {
    for code in 0..=0x10ffffu32 {
        if let Some(c) = char::from_u32(code) {
            assert_eq!(is_white_space(c), c.is_whitespace(), "U+{code:04X}");
        }
    }
}

#[test]
fn lines_end_at_newlines_and_lose_one_carriage_return() {
    for text in [
        "", "\n", "a", "a\n", "a\r\n", "a\r", "a\r\r\n", "a\n\nb", "\r\n\r\n", "a\nb\r\nc", "a\r\nb\r",
    ] {
        let want: Vec<&str> = text.lines().collect();
        assert_eq!(lines(text), want, "{text:?}");
    }
}

#[test]
fn splitting_agrees_with_the_standard_library() {
    for text in ["", " ", "a b", "  a  b ", "日本 語", "no-space", "x "] {
        let want: Vec<&str> = text.split(' ').collect();
        assert_eq!(split(text, ' '), want, "{text:?}");
        assert_eq!(split_once(text, ' '), text.split_once(' '), "{text:?}");
        assert_eq!(trim(text), text.trim(), "{text:?}");
        let want: Vec<&str> = text.split_whitespace().collect();
        assert_eq!(split_words(text), want, "{text:?}");
    }
    assert_eq!(split_words("1\t2\u{3000}3\u{a0}4"), vec!["1", "2", "3", "4"]);
    assert_eq!(split_path("/a//b/"), vec!["a", "b"]);
}

#[test]
fn prefixes_are_stripped_whole() {
    assert_eq!(strip_prefix("tree abc", "tree "), Some("abc"));
    assert_eq!(strip_prefix("tree", "tree "), None);
    assert_eq!(strip_prefix("日本語", "日"), Some("本語"));
    assert_eq!(strip_prefix("x", ""), Some("x"));
    assert!(same("日", "日"));
    assert!(!same("日", "日本"));
}

#[test]
fn numerals_are_written_and_read_back() {
    for n in [0, 1, 9, 10, 99, 100, 12345, u64::MAX] {
        assert_eq!(decimal(n), n.to_string());
        assert_eq!(parse_u64(&decimal(n)), Some(n));
    }
    for n in [0, -1, 7, i64::MAX, i64::MIN] {
        assert_eq!(signed_decimal(n), n.to_string());
        assert_eq!(parse_i64(&signed_decimal(n)), Some(n));
    }
}

#[test]
fn numbers_are_read_like_the_standard_library_reads_them() {
    for text in [
        "", "+", "-", "+5", "-5", "--5", "05", " 5", "5 ", "5a", "18446744073709551615",
        "18446744073709551616", "9223372036854775807", "9223372036854775808",
        "-9223372036854775808", "-9223372036854775809", "٣", "+-1", "-0",
    ] {
        assert_eq!(parse_u64(text), text.parse::<u64>().ok(), "{text:?}");
        assert_eq!(parse_usize(text), text.parse::<usize>().ok(), "{text:?}");
        assert_eq!(parse_i64(text), text.parse::<i64>().ok(), "{text:?}");
    }
}

#[test]
fn strings_are_ordered_by_their_bytes() {
    let words = ["", "a", "a/b", "a.txt", "a-b", "b", "Z", "é", "日本", "~"];
    for x in words {
        for y in words {
            assert_eq!(is_before(x, y), x < y, "{x:?} {y:?}");
        }
    }
    let given: Vec<String> = words.iter().map(|s| s.to_string()).collect();
    let mut want = given.clone();
    want.sort();
    assert_eq!(sort(given), want);
}
