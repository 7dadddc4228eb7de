use elten_scraper::digest::{hex, sha256_hex};
use elten_scraper::order::{order_by, Direction};
use elten_scraper::text::{
    contains, int_text, nat_text, parse_i64, parse_usize, same_ignoring_case, split, split_once,
    starts_with, strip_end, take_chars, trim,
};

#[test]
fn trimming_removes_unicode_space() {
    for s in ["  a b ", "\u{a0}\u{3000}x\u{2028}", "", " \t\r\n", "\u{200b}x", "\u{85}y\u{1680}"] {
        assert_eq!(trim(s), s.trim());
    }
    assert_eq!(strip_end("a//", '/'), "a");
}

#[test]
fn texts_are_split_like_std_does() {
    for s in ["", ",", "a,b,,c", "a?b&c?d", "no"] {
        let expected: Vec<&str> = s.split(|c| c == '?' || c == '&').collect();
        assert_eq!(split(s, '?', '&'), expected);
        let expected: Vec<&str> = s.split(',').collect();
        assert_eq!(split(s, ',', ','), expected);
    }
    assert_eq!(split_once("a-b-c", '-'), Some(("a".to_string(), "b-c".to_string())));
    assert_eq!(split_once("abc", '-'), None);
}

#[test]
fn numbers_are_read_like_std_does() {
    for s in [
        "0", "+7", "-7", "007", "", "+", "-", "1 ", "18446744073709551615", "18446744073709551616",
        "9223372036854775807", "9223372036854775808", "-9223372036854775808",
        "-9223372036854775809", "٣", "1_0", "--1", "+-1",
    ] {
        assert_eq!(parse_usize(s), s.parse::<usize>().ok(), "{s}");
        assert_eq!(parse_i64(s), s.parse::<i64>().ok(), "{s}");
    }
}

#[test]
fn numbers_are_written_in_decimal() {
    for n in [0i64, 7, -7, 10, i64::MAX, i64::MIN] {
        assert_eq!(int_text(n), n.to_string());
    }
    assert_eq!(nat_text(u128::MAX), u128::MAX.to_string());
}

#[test]
fn texts_are_compared_and_searched() {
    assert!(same_ignoring_case("AbC", "aBc"));
    assert!(!same_ignoring_case("É", "é"));
    assert!(starts_with("abc", "ab") && !starts_with("ab", "abc"));
    assert!(contains("abcabd", "abd") && contains("x", "") && !contains("ab", "ba"));
    assert_eq!(take_chars("żółw", 2), "żó");
    assert_eq!(take_chars("ab", 9), "ab");
}

#[test]
fn digests_are_lowercase_hexadecimal() {
    assert_eq!(
        sha256_hex(b""),
        "e3b0c44298fc1c149afbf4c8996fb92427ae41e4649b934ca495991b7852b855"
    );
    assert_eq!(hex(&vec![0, 10, 255]), "000aff");
}

#[test]
fn equal_keys_keep_their_order() {
    let keys = vec![3, 1, 3, 2];
    assert_eq!(order_by(&keys, Direction::Ascending), vec![1, 3, 0, 2]);
    assert_eq!(order_by(&keys, Direction::Descending), vec![0, 2, 3, 1]);
}
