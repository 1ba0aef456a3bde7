use pngifier::bytes::{bytes_eq, read_be_u32, u32_to_be_bytes};
use pngifier::color_type::{total_bytes, type_exists, type_str_translate, type_to_size};
use pngifier::error::Error;
use pngifier::progress_bar::ProgressBar;
use pngifier::verbosity::Verbosity;
use pngifier::{enable_ansi_support, safe_usize};

#[test]
fn big_endian_round_trip() {
    assert_eq!(u32_to_be_bytes(0x0102_0304), [1, 2, 3, 4]);
    assert_eq!(read_be_u32(&[1, 2, 3, 4]), 0x0102_0304);
    assert_eq!(read_be_u32(&[0xff, 0xff, 0xff, 0xff]), u32::MAX);
    assert_eq!(read_be_u32(&u32_to_be_bytes(123_456_789)), 123_456_789);
}

#[test]
fn bytes_eq_compares_contents() {
    assert!(bytes_eq(b"abc", b"abc"));
    assert!(!bytes_eq(b"abc", b"abd"));
    assert!(!bytes_eq(b"abc", b"ab"));
    assert!(bytes_eq(b"", b""));
}

#[test]
fn safe_usize_clamps() {
    assert_eq!(safe_usize(5, 3), 2);
    assert_eq!(safe_usize(3, 5), 0);
    assert_eq!(safe_usize(4, 4), 0);
}

#[test]
fn color_type_table() {
    assert_eq!(type_to_size(0), 1);
    assert_eq!(type_to_size(2), 3);
    assert_eq!(type_to_size(4), 2);
    assert_eq!(type_to_size(6), 4);
    assert_eq!(total_bytes(0, 8), 1);
    assert_eq!(total_bytes(2, 8), 3);
    assert_eq!(total_bytes(2, 16), 6);
    assert_eq!(total_bytes(6, 16), 8);
    assert!(type_exists(0) && type_exists(2) && type_exists(4) && type_exists(6));
    assert!(!type_exists(1) && !type_exists(3) && !type_exists(7));
}

#[test]
fn color_type_mnemonics() {
    assert_eq!(type_str_translate("g"), Some(0));
    assert_eq!(type_str_translate("ga"), Some(4));
    assert_eq!(type_str_translate("rgb"), Some(2));
    assert_eq!(type_str_translate("rgba"), Some(6));
    assert_eq!(type_str_translate("gray"), None);
    assert_eq!(type_str_translate(""), None);
}

#[test]
fn error_messages_name_the_value() {
    assert_eq!(
        Error::ParseWidth("x".to_string()).message(),
        "Invalid width of 'x'."
    );
    assert_eq!(
        Error::ParseBuffer("1tb".to_string()).message(),
        "Invalid buffer size of '1tb'."
    );
    assert_eq!(
        Error::WidthAndHeightDefined.message(),
        "Cannot define both a width and height of the image."
    );
    assert_eq!(
        Error::InvalidCRC("out.png".to_string()).message(),
        "Unable to verify crc from 'out.png'."
    );
    assert_eq!(
        Error::ParseColorType("9".to_string()).message(),
        "Invalid color type of '9'. Color types of 0, 2, 4 & 6 are supported."
    );
}

#[test]
fn progress_bar_counts() {
    let mut bar = ProgressBar::new(10, "Working");
    assert_eq!(bar.current, 0);
    assert!(bar.tick(4).is_none());
    assert_eq!(bar.current, 4);
    assert!(bar.tick(6).is_some());
    assert!(bar.tick(0).is_some());
}

#[test]
fn progress_bar_set_tick_and_complete() {
    let mut bar = ProgressBar::new(100, "Working");
    assert!(bar.set_tick(50).is_none());
    assert_eq!(bar.current, 50);
    assert!(bar.set_tick(100).is_some());
    let mut bar2 = ProgressBar::new(7, "Working");
    assert!(bar2.complete().is_some());
    assert_eq!(bar2.current, bar2.total);
}

#[test]
fn verbosity_from_flags() {
    let v = Verbosity::from_flags(false, false, false, true, true);
    assert!(v.verbose && v.progress && !v.skip && !v.silent);
    let s = Verbosity::from_flags(false, true, false, true, true);
    assert!(!s.verbose && !s.progress && s.skip && s.silent);
    let q = Verbosity::from_flags(false, false, true, false, false);
    assert!(q.skip && q.silent);
    let a = Verbosity::from_flags(true, false, false, false, false);
    assert!(a.skip && !a.silent);
}

#[test]
fn ansi_support_always_available() {
    assert!(enable_ansi_support().is_ok());
}
