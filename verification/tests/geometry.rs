use pngifier::error::Error;
use pngifier::geometry::{compute_geometry, div_ceil, isqrt};

#[test]
fn ten_byte_grayscale_geometry() {
    // A 10-byte file at one byte per pixel: width 3, height 4, row size 3.
    let g = compute_geometry(10, 8, 0, None, None).unwrap();
    assert_eq!(g.width, 3);
    assert_eq!(g.height, 4);
    assert_eq!(g.chunk_size, 3);
}

#[test]
fn default_geometry_truecolor() {
    // 100 bytes at 3 bytes per pixel: sqrt(33) = 5, row 15, height 7.
    let g = compute_geometry(100, 8, 2, None, None).unwrap();
    assert_eq!(g.width, 5);
    assert_eq!(g.chunk_size, 15);
    assert_eq!(g.height, 7);
    assert!(g.chunk_size * g.height >= 100);
}

#[test]
fn width_and_height_both_given_fails() {
    let r = compute_geometry(100, 8, 2, Some(4), Some(4));
    assert!(matches!(r, Err(Error::WidthAndHeightDefined)));
}

#[test]
fn width_override_recomputes_height() {
    let g = compute_geometry(10, 8, 0, Some(2), None).unwrap();
    assert_eq!(g.width, 2);
    assert_eq!(g.chunk_size, 2);
    assert_eq!(g.height, 5);
}

#[test]
fn height_override_recomputes_width() {
    let g = compute_geometry(10, 8, 0, None, Some(4)).unwrap();
    assert_eq!(g.height, 4);
    assert_eq!(g.width, 3);
    assert_eq!(g.chunk_size, 3);
}

#[test]
fn invalid_bit_depth_fails() {
    let r = compute_geometry(10, 12, 0, None, None);
    assert!(matches!(r, Err(Error::ParseBitDepth(_))));
}

#[test]
fn invalid_color_type_fails() {
    let r = compute_geometry(10, 8, 3, None, None);
    assert!(matches!(r, Err(Error::ParseColorType(_))));
}

#[test]
fn sixteen_bit_doubles_pixel_size() {
    let g = compute_geometry(32, 16, 4, None, None).unwrap();
    // 2 channels at 16 bits: 4 bytes per pixel; sqrt(8) = 2.
    assert_eq!(g.width, 2);
    assert_eq!(g.chunk_size, 8);
    assert_eq!(g.height, 4);
}

#[test]
fn capacity_covers_size() {
    for size in [1u64, 2, 3, 9, 10, 100, 1023, 1024, 65537] {
        let g = compute_geometry(size, 8, 0, None, None).unwrap();
        assert!(g.chunk_size * g.height >= size);
    }
}

#[test]
fn isqrt_values() {
    assert_eq!(isqrt(0), 0);
    assert_eq!(isqrt(1), 1);
    assert_eq!(isqrt(3), 1);
    assert_eq!(isqrt(4), 2);
    assert_eq!(isqrt(15), 3);
    assert_eq!(isqrt(16), 4);
    assert_eq!(isqrt(u64::MAX), 0xFFFF_FFFF);
}

#[test]
fn div_ceil_values() {
    assert_eq!(div_ceil(0, 3), 0);
    assert_eq!(div_ceil(1, 3), 1);
    assert_eq!(div_ceil(3, 3), 1);
    assert_eq!(div_ceil(10, 3), 4);
    assert_eq!(div_ceil(12, 3), 4);
}
