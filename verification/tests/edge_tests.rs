use base_converter::parser::{parse_base, parse_number};
use base_converter::{convert_fractional_part, convert_integer_part, format_result};

#[test]
fn test_round_trip_with_leading_zeros() {
    // the round-trip law on concrete values: out and back through decimal
    // reproduces the input up to leading-zero normalization
    let digits = vec![0, 0, 7, 5];
    let decimal = convert_integer_part(&digits, 8, 10);
    let back = convert_integer_part(&decimal, 10, 8);
    assert_eq!(back, vec![7, 5]);

    let digits = vec![1, 0, 1, 1];
    let decimal = convert_integer_part(&digits, 2, 10);
    let back = convert_integer_part(&decimal, 10, 2);
    assert_eq!(back, digits);
}

#[test]
fn test_zero_identity_across_bases() {
    assert_eq!(convert_integer_part(&[], 36, 2), vec![0]);
    assert_eq!(convert_integer_part(&[0], 2, 36), vec![0]);
    assert_eq!(convert_integer_part(&[0, 0, 0], 16, 8), vec![0]);
}

#[test]
fn test_convert_integer_max_base_digits() {
    // base-36 digit values map through decimal exactly
    assert_eq!(convert_integer_part(&[35], 36, 10), vec![3, 5]);
    assert_eq!(convert_integer_part(&[1, 0], 36, 10), vec![3, 6]);
}

#[test]
fn test_convert_fractional_precision_zero() {
    assert_eq!(convert_fractional_part(&[5], 10, 2, 0), Vec::<u32>::new());
    assert_eq!(convert_fractional_part(&[], 10, 2, 0), Vec::<u32>::new());
}

#[test]
fn test_convert_fractional_all_zero_digits() {
    // a fractional part written as zeros denotes exact zero: no digits come out
    assert_eq!(convert_fractional_part(&[0, 0], 10, 2, 10), Vec::<u32>::new());
}

#[test]
fn test_convert_fractional_eighth() {
    // .125 decimal is .001 binary, terminating well before the bound
    assert_eq!(convert_fractional_part(&[1, 2, 5], 10, 2, 10), vec![0, 0, 1]);
}

#[test]
fn test_parse_error_messages() {
    assert_eq!(
        parse_number("123", 37).unwrap_err(),
        "Base must be between 2 and 36, got 37"
    );
    assert_eq!(parse_number("12@", 10).unwrap_err(), "Invalid character: '@'");
    assert_eq!(
        parse_number("9", 8).unwrap_err(),
        "Digit '9' is invalid for base 8"
    );
    assert_eq!(parse_number("", 10).unwrap_err(), "Empty number");
    assert_eq!(
        parse_number("1.2.3", 10).unwrap_err(),
        "Invalid number format: multiple decimal points"
    );
}

#[test]
fn test_parse_base_entries() {
    assert_eq!(parse_base("10"), Some(10));
    assert_eq!(parse_base("+36"), Some(36));
    assert_eq!(parse_base("0"), Some(0));
    assert_eq!(parse_base("4294967295"), Some(u32::MAX));
    assert_eq!(parse_base("4294967296"), None);
    assert_eq!(parse_base(""), None);
    assert_eq!(parse_base("+"), None);
    assert_eq!(parse_base("abc"), None);
    assert_eq!(parse_base("1 2"), None);
    assert_eq!(parse_base("-3"), None);
}

#[test]
fn test_format_result_glyphs() {
    assert_eq!(format_result(&[10, 35], &[]), "AZ");
    assert_eq!(format_result(&[], &[]), "0");
    assert_eq!(format_result(&[], &[1, 15]), "0.1F");
    assert_eq!(format_result(&[0], &[0]), "0.0");
}
