use belka::bytes::{eq_ignore_ascii_case, find_byte, find_subslice, trim_ascii};
use belka::numbers::{decimal_text, parse_i64, parse_u16, parse_u32, signed_text};
use belka::text::{contains, ends_with, is_extension, split_lines, starts_with, trim};

#[test]
fn numbers_are_written_and_read() {
    assert_eq!(decimal_text(0), "0");
    assert_eq!(decimal_text(u64::MAX), u64::MAX.to_string());
    assert_eq!(signed_text(i64::MIN), i64::MIN.to_string());
    assert_eq!(parse_u16("65535"), Some(65535));
    assert_eq!(parse_u16("65536"), None);
    assert_eq!(parse_u16("+7"), Some(7));
    assert_eq!(parse_u16(""), None);
    assert_eq!(parse_u16("-1"), None);
    assert_eq!(parse_u32("0042"), Some(42));
    assert_eq!(parse_i64("-9223372036854775807"), Some(-9223372036854775807));
    assert_eq!(parse_i64("1 "), None);
}

#[test]
fn text_is_trimmed_and_searched() {
    assert_eq!(trim(" \u{a0}\tx y\u{2003}\n"), "x y");
    assert_eq!(split_lines("a\r\nb\n\nc"), vec!["a", "b", "", "c"]);
    assert!(contains("прокси", "рок"));
    assert!(starts_with("abc", "ab"));
    assert!(ends_with("abc", "bc"));
    assert!(!ends_with("abc", "ab"));
    assert!(is_extension("Firefox.app", "app"));
    assert!(!is_extension(".app", "app"));
}

#[test]
fn bytes_are_trimmed_and_searched() {
    assert!(eq_ignore_ascii_case(b"HoSt", b"host"));
    assert!(!eq_ignore_ascii_case(b"host", b"hosts"));
    assert_eq!(trim_ascii(b" \t a b \r\n"), b"a b");
    assert_eq!(find_byte(b"abc", b'c'), 2);
    assert_eq!(find_byte(b"abc", b'x'), 3);
    assert_eq!(find_subslice(b"abcabc", b"bc", 2), Some(4));
    assert_eq!(find_subslice(b"abcabc", b"x", 0), None);
}
