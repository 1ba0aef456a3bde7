//! The fixed set of raster color types and the byte width of a pixel.
//!
//! The container knows four color types, tagged 0 (grayscale), 2 (truecolor),
//! 4 (grayscale with alpha) and 6 (truecolor with alpha).

use vstd::prelude::*;

verus! {

/// Whether `color_type` is one of the four known tags.
pub open spec fn spec_type_exists(color_type: u8) -> bool {
    color_type == 0 || color_type == 2 || color_type == 4 || color_type == 6
}

/// Number of channels (samples per pixel) of a known color type.
pub open spec fn spec_type_to_size(color_type: u8) -> usize
    recommends
        spec_type_exists(color_type),
{
    if color_type == 0 {
        1usize
    } else if color_type == 2 {
        3usize
    } else if color_type == 4 {
        2usize
    } else {
        4usize
    }
}

/// Bytes per pixel: channels times bit depth, in whole bytes.
pub open spec fn spec_total_bytes(color_type: u8, bit_depth: u8) -> usize
    recommends
        spec_type_exists(color_type),
{
    (spec_type_to_size(color_type) * bit_depth / 8) as usize
}

/// The mnemonic table: "g", "ga", "rgb" and "rgba" name the four tags.
pub open spec fn spec_type_str_translate(s: Seq<char>) -> Option<u8> {
    if s == "g"@ {
        Some(0u8)
    } else if s == "ga"@ {
        Some(4u8)
    } else if s == "rgb"@ {
        Some(2u8)
    } else if s == "rgba"@ {
        Some(6u8)
    } else {
        None
    }
}

/// Number of channels of a known color type.
pub fn type_to_size(color_type: u8) -> (r: usize)
    requires
        spec_type_exists(color_type),
    ensures
        r == spec_type_to_size(color_type),
{
    if color_type == 0 {
        1
    } else if color_type == 2 {
        3
    } else if color_type == 4 {
        2
    } else {
        4
    }
}

/// Bytes per pixel for the given color type and bit depth.
pub fn total_bytes(color_type: u8, bit_depth: u8) -> (r: usize)
    requires
        spec_type_exists(color_type),
    ensures
        r == spec_total_bytes(color_type, bit_depth),
{
    type_to_size(color_type) * (bit_depth as usize) / 8
}

/// Whether `color_type` is one of the four known tags.
pub fn type_exists(color_type: u8) -> (r: bool)
    ensures
        r == spec_type_exists(color_type),
{
    color_type == 0 || color_type == 2 || color_type == 4 || color_type == 6
}

/// The tag behind a mnemonic color-type name, if the name is known.
pub fn type_str_translate(input: &str) -> (r: Option<u8>)
    ensures
        r == spec_type_str_translate(input@),
{
    let owned: String = input.to_owned();
    if owned == "g".to_owned() {
        Some(0)
    } else if owned == "ga".to_owned() {
        Some(4)
    } else if owned == "rgb".to_owned() {
        Some(2)
    } else if owned == "rgba".to_owned() {
        Some(6)
    } else {
        None
    }
}

} // verus!
