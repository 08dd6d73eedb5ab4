use mnemonic_worker::decimal::{format_u128_decimal, parse_u128_decimal};

#[test]
fn parse_simple_number() {
    assert_eq!(parse_u128_decimal(&b"12345".to_vec()), Some(12345));
}

#[test]
fn parse_zero() {
    assert_eq!(parse_u128_decimal(&b"0".to_vec()), Some(0));
    assert_eq!(parse_u128_decimal(&b"000".to_vec()), Some(0));
}

#[test]
fn parse_largest_value() {
    let text = b"340282366920938463463374607431768211455".to_vec();
    assert_eq!(parse_u128_decimal(&text), Some(u128::MAX));
}

#[test]
fn parse_overflow_is_rejected() {
    let text = b"340282366920938463463374607431768211456".to_vec();
    assert_eq!(parse_u128_decimal(&text), None);
}

#[test]
fn parse_empty_is_rejected() {
    assert_eq!(parse_u128_decimal(&Vec::new()), None);
}

#[test]
fn parse_non_digit_is_rejected() {
    assert_eq!(parse_u128_decimal(&b"12a3".to_vec()), None);
    assert_eq!(parse_u128_decimal(&b"-5".to_vec()), None);
    assert_eq!(parse_u128_decimal(&b" 5".to_vec()), None);
}

#[test]
fn format_zero() {
    assert_eq!(format_u128_decimal(0), b"0".to_vec());
}

#[test]
fn format_exact_digits() {
    assert_eq!(format_u128_decimal(1), b"1".to_vec());
    assert_eq!(format_u128_decimal(10), b"10".to_vec());
    assert_eq!(format_u128_decimal(123456789), b"123456789".to_vec());
    assert_eq!(
        format_u128_decimal(u128::MAX),
        b"340282366920938463463374607431768211455".to_vec()
    );
}

#[test]
fn format_then_parse_round_trip() {
    for n in [0u128, 1, 9, 10, 4095, 1 << 64, u128::MAX - 1, u128::MAX] {
        assert_eq!(parse_u128_decimal(&format_u128_decimal(n)), Some(n));
    }
}
