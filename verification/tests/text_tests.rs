use ratio_spoof_core::text::{parse_i64_bytes, parse_usize_bytes, u64_decimal};

#[test]
fn parses_decimal_text_as_str_parse_does() {
    assert_eq!(parse_usize_bytes(b"+15", 0, 3), Some(15));
    assert_eq!(parse_usize_bytes(b"007", 0, 3), Some(7));
    assert_eq!(parse_usize_bytes(b"-5", 0, 2), None);
    assert_eq!(parse_usize_bytes(b"+", 0, 1), None);
    assert_eq!(parse_usize_bytes(b"", 0, 0), None);
    assert_eq!(parse_usize_bytes(b"1a", 0, 2), None);
    assert_eq!(parse_usize_bytes(b"99999999999999999999999", 0, 23), None);
    assert_eq!(parse_i64_bytes(b"-9223372036854775808", 0, 20), Some(i64::MIN));
    assert_eq!(parse_i64_bytes(b"9223372036854775808", 0, 19), None);
    assert_eq!(parse_i64_bytes(b"+42", 0, 3), Some(42));
    assert_eq!(parse_i64_bytes(b"-", 0, 1), None);
    assert_eq!(parse_i64_bytes(b"x12y", 1, 3), Some(12));
}

#[test]
fn writes_decimal_text() {
    assert_eq!(u64_decimal(0), vec!['0']);
    assert_eq!(u64_decimal(6881).into_iter().collect::<String>(), "6881");
    assert_eq!(u64_decimal(u64::MAX).into_iter().collect::<String>(), u64::MAX.to_string());
}
