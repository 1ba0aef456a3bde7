use pngifier::error::Error;
use pngifier::parse::{parse_arg_u64, parse_bit_depth, parse_byte_string, parse_color_type, parse_u64};

#[test]
fn parse_u64_plain() {
    assert_eq!(parse_u64(b"0"), Some(0));
    assert_eq!(parse_u64(b"123"), Some(123));
    assert_eq!(parse_u64(b"+123"), Some(123));
    assert_eq!(parse_u64(b"18446744073709551615"), Some(u64::MAX));
}

#[test]
fn parse_u64_rejects() {
    assert_eq!(parse_u64(b""), None);
    assert_eq!(parse_u64(b"+"), None);
    assert_eq!(parse_u64(b"12a"), None);
    assert_eq!(parse_u64(b"-1"), None);
    assert_eq!(parse_u64(b" 1"), None);
    assert_eq!(parse_u64(b"18446744073709551616"), None);
    assert_eq!(parse_u64(b"99999999999999999999999"), None);
}

#[test]
fn parse_byte_string_suffixes() {
    assert_eq!(parse_byte_string("100").unwrap(), 100);
    assert_eq!(parse_byte_string("1b").unwrap(), 1);
    assert_eq!(parse_byte_string("1kb").unwrap(), 1024);
    assert_eq!(parse_byte_string("10MB").unwrap(), 10 * 1024 * 1024);
    assert_eq!(parse_byte_string("1gb").unwrap(), 1024 * 1024 * 1024);
    assert_eq!(parse_byte_string("2Gb").unwrap(), 2 * 1024 * 1024 * 1024);
    assert_eq!(parse_byte_string("1 kb").unwrap(), 1024);
}

#[test]
fn parse_byte_string_rejects() {
    assert!(matches!(parse_byte_string(""), Err(Error::ParseBuffer(_))));
    assert!(matches!(parse_byte_string("b"), Err(Error::ParseBuffer(_))));
    assert!(matches!(parse_byte_string("x"), Err(Error::ParseBuffer(_))));
    assert!(matches!(parse_byte_string("1tb"), Err(Error::ParseBuffer(_))));
    assert!(matches!(
        parse_byte_string("99999999999999999999gb"),
        Err(Error::ParseBuffer(_))
    ));
    // The scaled value must also fit.
    assert!(matches!(
        parse_byte_string("18446744073709551615kb"),
        Err(Error::ParseBuffer(_))
    ));
}

#[test]
fn parse_arg_u64_errors_name_the_dimension() {
    assert_eq!(parse_arg_u64("77", false).unwrap(), 77);
    assert!(matches!(parse_arg_u64("x", false), Err(Error::ParseWidth(_))));
    assert!(matches!(parse_arg_u64("x", true), Err(Error::ParseHeight(_))));
}

#[test]
fn parse_bit_depth_accepts_8_and_16() {
    assert_eq!(parse_bit_depth("8").unwrap(), 8);
    assert_eq!(parse_bit_depth("16").unwrap(), 16);
    assert!(matches!(parse_bit_depth("7"), Err(Error::ParseBitDepth(_))));
    assert!(matches!(parse_bit_depth("24"), Err(Error::ParseBitDepth(_))));
    assert!(matches!(parse_bit_depth("x"), Err(Error::ParseBitDepth(_))));
}

#[test]
fn parse_color_type_numeric_and_mnemonic() {
    assert_eq!(parse_color_type("0").unwrap(), 0);
    assert_eq!(parse_color_type("2").unwrap(), 2);
    assert_eq!(parse_color_type("4").unwrap(), 4);
    assert_eq!(parse_color_type("6").unwrap(), 6);
    assert_eq!(parse_color_type("g").unwrap(), 0);
    assert_eq!(parse_color_type("ga").unwrap(), 4);
    assert_eq!(parse_color_type("rgb").unwrap(), 2);
    assert_eq!(parse_color_type("rgba").unwrap(), 6);
    assert!(matches!(parse_color_type("1"), Err(Error::ParseColorType(_))));
    assert!(matches!(parse_color_type("zz"), Err(Error::ParseColorType(_))));
}
