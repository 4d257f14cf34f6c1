//! Text helpers, digests and time renderings.

use tinystore::digest::{calculate_etag, hex_of, hmac_sha256_tag, md5_hex, sha256_hex};
use tinystore::text::{
    chars_of, find, join_strings, lex_less, parse_u64, split_on_char, starts_with, string_from_chars,
    to_ascii_lower_str, trim_ws_str, u64_to_decimal,
};
use tinystore::time::{rfc3339_or_empty, Timestamp};

#[test]
fn numbers() {
    assert_eq!(parse_u64("0"), Some(0));
    assert_eq!(parse_u64("+42"), Some(42));
    assert_eq!(parse_u64("18446744073709551615"), Some(u64::MAX));
    assert_eq!(parse_u64("18446744073709551616"), None);
    assert_eq!(parse_u64(""), None);
    assert_eq!(parse_u64("+"), None);
    assert_eq!(parse_u64("-1"), None);
    assert_eq!(parse_u64("1a"), None);
    assert_eq!(u64_to_decimal(0), "0");
    assert_eq!(u64_to_decimal(1234567890), "1234567890");
    assert_eq!(u64_to_decimal(u64::MAX), "18446744073709551615");
}

#[test]
fn splitting_joining_trimming() {
    let c = chars_of("a,b,,c");
    assert_eq!(split_on_char(&c, ','), vec!["a", "b", "", "c"]);
    assert_eq!(split_on_char(&chars_of(""), ','), vec![""]);
    let parts = vec!["x".to_string(), "y".to_string(), "z".to_string()];
    assert_eq!(join_strings(&parts, ";"), "x;y;z");
    assert_eq!(join_strings(&vec![], ";"), "");
    assert_eq!(trim_ws_str(" \t a b \t"), "a b");
    assert_eq!(trim_ws_str("   "), "");
    assert_eq!(to_ascii_lower_str("X-Amz-DATE"), "x-amz-date");
    assert_eq!(string_from_chars(&['h', 'é']), "hé");
}

#[test]
fn comparing_and_finding() {
    assert!(lex_less(&chars_of("a"), &chars_of("b")));
    assert!(lex_less(&chars_of("a"), &chars_of("ab")));
    assert!(!lex_less(&chars_of("ab"), &chars_of("ab")));
    assert!(!lex_less(&chars_of("b"), &chars_of("a")));
    assert!(starts_with(&chars_of("prefix/rest"), &chars_of("prefix/")));
    assert!(!starts_with(&chars_of("pre"), &chars_of("prefix")));
    assert_eq!(find(&chars_of("a/b/c"), &chars_of("/"), 0), Some(1));
    assert_eq!(find(&chars_of("a/b/c"), &chars_of("/"), 2), Some(3));
    assert_eq!(find(&chars_of("abc"), &chars_of("/"), 0), None);
    assert_eq!(find(&chars_of("abc"), &chars_of(""), 3), Some(3));
}

#[test]
fn digests() {
    assert_eq!(calculate_etag(b"hello"), "\"5d41402abc4b2a76b9719d911017c592\"");
    assert_eq!(md5_hex(b""), "d41d8cd98f00b204e9800998ecf8427e");
    assert_eq!(sha256_hex(b"abc"), "ba7816bf8f01cfea414140de5dae2223b00361a396177a9cb410ff61f20015ad");
    assert_eq!(hex_of(&[0x00, 0x0f, 0xa0, 0xff]), "000fa0ff");
    let tag = hmac_sha256_tag(b"Jefe", b"what do ya want for nothing?").unwrap();
    assert_eq!(hex_of(&tag), "5bdcc146bf60754e6a042426089575c75a003f089d2739839dec58b964ec3843");
}

#[test]
fn time_renderings() {
    assert_eq!(rfc3339_or_empty(Timestamp { secs: 1369353600, nanos: 0 }), "2013-05-24T00:00:00.000Z");
    assert_eq!(rfc3339_or_empty(Timestamp { secs: 0, nanos: 5_000_000 }), "1970-01-01T00:00:00.005Z");
    assert_eq!(rfc3339_or_empty(Timestamp { secs: i64::MAX, nanos: 0 }), "");
    assert_eq!(Timestamp::epoch(), Timestamp { secs: 0, nanos: 0 });
}
