//! Texts, numbers and hashes.

use quill::hash::{fnv1a64, hex_encode, push_hex, FNV_OFFSET};
use quill::number::{parse_i32, parse_u64, push_decimal};
use quill::paths::{is_within, split_path};
use quill::text::{chars_of, join_path, same_str, split_lines, str_precedes, string_of, trim};

#[test]
fn hashes_are_those_of_fnv_1a() {
    assert_eq!(fnv1a64(FNV_OFFSET, b""), 0xcbf2_9ce4_8422_2325);
    assert_eq!(fnv1a64(FNV_OFFSET, b"a"), 0xaf63_dc4c_8601_ec8c);
    assert_eq!(fnv1a64(FNV_OFFSET, b"foobar"), 0x8594_4171_f739_67e8);
    assert_eq!(fnv1a64(fnv1a64(FNV_OFFSET, b"foo"), b"bar"), fnv1a64(FNV_OFFSET, b"foobar"));
}

#[test]
fn bytes_in_hex() {
    assert_eq!(hex_encode(&[0x00, 0x9a, 0xff]), "009aff");
    let mut s = String::new();
    push_hex(&mut s, 0xbeef, 16);
    assert_eq!(s, "000000000000beef");
}

#[test]
fn numbers_are_read_as_they_are_written() {
    assert_eq!(parse_i32(b"-2147483648"), Some(i32::MIN));
    assert_eq!(parse_i32(b"2147483648"), None);
    assert_eq!(parse_i32(b"+5"), Some(5));
    assert_eq!(parse_i32(b""), None);
    assert_eq!(parse_i32(b"-"), None);
    assert_eq!(parse_u64(b"18446744073709551615"), Some(u64::MAX));
    assert_eq!(parse_u64(b"18446744073709551616"), None);
    assert_eq!(parse_u64(b"-1"), None);
    let mut s = String::new();
    push_decimal(&mut s, 1200);
    assert_eq!(s, "1200");
    let mut z = String::new();
    push_decimal(&mut z, 0);
    assert_eq!(z, "0");
}

#[test]
fn paths_are_joined_and_parted() {
    assert_eq!(join_path("/a", "b"), "/a/b");
    assert_eq!(join_path("/a/", "b"), "/a/b");
    assert_eq!(join_path("", "b"), "b");
    assert_eq!(join_path("/a", "/b"), "/b");
    assert_eq!(split_path(b"//a/./b/"), vec![b"a".as_slice(), b"b".as_slice()]);
    assert!(is_within(b"/a/b", b"/a"));
    assert!(is_within(b"/a/b", b"/"));
    assert!(!is_within(b"/a", b"/a/b"));
}

#[test]
fn texts_are_cut_and_put_in_order() {
    let chars = chars_of("a\r\nb\n\nc\r");
    let lines: Vec<String> = split_lines(&chars).into_iter().map(string_of).collect();
    assert_eq!(lines, "a\r\nb\n\nc\r".lines().map(String::from).collect::<Vec<_>>());
    assert_eq!(string_of(trim(&chars_of("\u{3000} x\t"))), "x");
    assert!(str_precedes("a", "ab"));
    assert!(str_precedes("Z", "a"));
    assert!(!str_precedes("é", "e"));
    assert!(same_str("你", "你"));
}
