use rstredis::decimal::{parse_integer_bytes, push_decimal, push_signed};

#[test]
fn decimal_digits_of_numbers() {
    let mut out = Vec::new();
    push_decimal(&mut out, 0);
    assert_eq!(out, b"0".to_vec());
    let mut out = Vec::new();
    push_decimal(&mut out, 1234567890);
    assert_eq!(out, b"1234567890".to_vec());
}

#[test]
fn signed_text() {
    let mut out = Vec::new();
    push_signed(&mut out, -42);
    assert_eq!(out, b"-42".to_vec());
    let mut out = Vec::new();
    push_signed(&mut out, i64::MIN);
    assert_eq!(out, i64::MIN.to_string().into_bytes());
}

#[test]
fn parse_integer_like_std() {
    let umax = usize::MAX as i128;
    assert_eq!(parse_integer_bytes(b"42", 0, umax), Some(42));
    assert_eq!(parse_integer_bytes(b"+42", 0, umax), Some(42));
    assert_eq!(parse_integer_bytes(b"-42", 0, umax), None);
    assert_eq!(parse_integer_bytes(b"", 0, umax), None);
    assert_eq!(parse_integer_bytes(b"+", 0, umax), None);
    assert_eq!(parse_integer_bytes(b"4 2", 0, umax), None);
    let lo = i64::MIN as i128;
    let hi = i64::MAX as i128;
    assert_eq!(parse_integer_bytes(b"-9223372036854775808", lo, hi), Some(lo));
    assert_eq!(parse_integer_bytes(b"9223372036854775808", lo, hi), None);
    assert_eq!(parse_integer_bytes(b"-", lo, hi), None);
    assert_eq!(parse_integer_bytes(b"007", lo, hi), Some(7));
}
