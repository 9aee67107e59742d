use numparse::utils::format_string_into_number;

#[test]
fn test_format_string_into_number() {
    assert_eq!(format_string_into_number("123"), Some((123, false)));
    assert_eq!(format_string_into_number("0x123"), Some((0x123, false)));
    assert_eq!(format_string_into_number("-123"), Some((!123u128 + 1, true)));
    assert_eq!(format_string_into_number("-0x123"), None);
    assert_eq!(format_string_into_number("abcd"), None);
    assert_eq!(format_string_into_number("0xabcd"), Some((0xabcd, false)));
    assert_eq!(format_string_into_number("0xabcdefg"), None);
    assert_eq!(format_string_into_number(""), None);
    assert_eq!(format_string_into_number("12"), Some((12, false)));
    assert_eq!(format_string_into_number("xy"), None);
}

#[test]
fn test_decimal_bounds() {
    assert_eq!(format_string_into_number("0"), Some((0, false)));
    assert_eq!(
        format_string_into_number("340282366920938463463374607431768211455"),
        Some((u128::MAX, false))
    );
    // One past u128::MAX.
    assert_eq!(
        format_string_into_number("340282366920938463463374607431768211456"),
        None
    );
    // Leading zeros are ordinary digits.
    assert_eq!(format_string_into_number("007"), Some((7, false)));
}

#[test]
fn test_hex_bounds() {
    assert_eq!(format_string_into_number("0x0"), Some((0, false)));
    assert_eq!(
        format_string_into_number("0xffffffffffffffffffffffffffffffff"),
        Some((u128::MAX, false))
    );
    // 2^128 needs 33 hex digits.
    assert_eq!(
        format_string_into_number("0x100000000000000000000000000000000"),
        None
    );
    // Uppercase hex digits are accepted; an uppercase prefix is not.
    assert_eq!(format_string_into_number("0xAbCd"), Some((0xabcd, false)));
    assert_eq!(format_string_into_number("0X12"), None);
}

#[test]
fn test_negative_bounds() {
    assert_eq!(format_string_into_number("-1"), Some((u128::MAX, true)));
    assert_eq!(format_string_into_number("-0"), Some((0, true)));
    // The smallest signed 128-bit value: its two's complement is 2^127.
    assert_eq!(
        format_string_into_number("-170141183460469231731687303715884105728"),
        Some((1u128 << 127, true))
    );
    // One below the signed range.
    assert_eq!(
        format_string_into_number("-170141183460469231731687303715884105729"),
        None
    );
    assert_eq!(format_string_into_number("-123"), Some((u128::MAX - 122, true)));
}

#[test]
fn test_plus_sign() {
    // An explicit plus sign is no part of the grammar, in any position.
    assert_eq!(format_string_into_number("+123"), None);
    assert_eq!(format_string_into_number("0x+12"), None);
    assert_eq!(format_string_into_number("+"), None);
    assert_eq!(format_string_into_number("0x+"), None);
    assert_eq!(format_string_into_number("++1"), None);
    assert_eq!(format_string_into_number("+0x12"), None);
    assert_eq!(format_string_into_number("-+12"), None);
}

#[test]
fn test_malformed() {
    assert_eq!(format_string_into_number("-"), None);
    assert_eq!(format_string_into_number("--5"), None);
    assert_eq!(format_string_into_number("12 "), None);
    assert_eq!(format_string_into_number(" 12"), None);
    assert_eq!(format_string_into_number("1.5"), None);
    assert_eq!(format_string_into_number("0x"), None);
    assert_eq!(format_string_into_number("0xg"), None);
    // Hex digits without the prefix are not decimal digits.
    assert_eq!(format_string_into_number("ff"), None);
    // Non-ASCII input is no numeral.
    assert_eq!(format_string_into_number("½"), None);
    assert_eq!(format_string_into_number("١٢٣"), None);
}

#[test]
fn test_round_trip() {
    // Re-rendering a parsed magnitude in its base and parsing again yields
    // the same pair.
    let (m, neg) = format_string_into_number("98765").unwrap();
    assert!(!neg);
    assert_eq!(format_string_into_number(&format!("{}", m)), Some((m, neg)));

    let (m, neg) = format_string_into_number("0xdeadbeef").unwrap();
    assert!(!neg);
    assert_eq!(
        format_string_into_number(&format!("0x{:x}", m)),
        Some((m, neg))
    );
}
