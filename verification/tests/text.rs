use hitch::output::truncate_context_line;
use hitch::text::{chars_of, decimal_chars, parse_u64, str_ends_with, str_starts_with, trimmed};
use hitch::utf8::decode;

#[test]
fn characters_round_trip() {
    let s = "añ漢";
    assert_eq!(chars_of(s), vec!['a', 'ñ', '漢']);
    assert_eq!(truncate_context_line(s), s);
}

#[test]
fn numbers_parse_like_std() {
    assert_eq!(parse_u64(&chars_of("42")), Some(42));
    assert_eq!(parse_u64(&chars_of("+7")), Some(7));
    assert_eq!(parse_u64(&chars_of("+")), None);
    assert_eq!(parse_u64(&chars_of("18446744073709551615")), Some(u64::MAX));
    assert_eq!(parse_u64(&chars_of("18446744073709551616")), None);
    assert_eq!(parse_u64(&chars_of("-1")), None);
    assert_eq!(decimal_chars(1234).into_iter().collect::<String>(), "1234");
}

#[test]
fn trimming_and_affixes() {
    assert_eq!(trimmed(&chars_of(" \t x y \n")).into_iter().collect::<String>(), "x y");
    assert!(str_starts_with("--wait=1", "--wait="));
    assert!(str_ends_with("10ms", "ms"));
    assert!(!str_ends_with("s", "ms"));
}

#[test]
fn utf8_decoding_checks_validity() {
    assert_eq!(decode(b"h\xc3\xa9"), Some(vec!['h', 'é']));
    assert_eq!(decode(b"\xff"), None);
    assert_eq!(decode(b"\xed\xa0\x80"), None);
}
