//! The geometry calculator: derive raster width, height and row size from
//! the file size and the optional overrides.

use crate::color_type::{spec_total_bytes, spec_type_exists, total_bytes, type_exists};
use crate::error::Error;
use vstd::prelude::*;

verus! {

/// The raster shape an encode uses: `chunk_size` is `width` times the bytes
/// per pixel, and `chunk_size * height` is the raster's data capacity.
pub struct Geometry {
    pub width: u64,
    pub height: u64,
    pub chunk_size: u64,
}

/// Floor of the square root.
pub fn isqrt(n: u64) -> (r: u64)
    ensures
        r * r <= n,
        n < (r + 1) * (r + 1),
{
    let mut lo: u64 = 0;
    let mut hi: u64 = 0x1_0000_0000;
    while lo + 1 < hi
        invariant
            lo < hi <= 0x1_0000_0000,
            lo * lo <= n,
            n < hi * hi || hi == 0x1_0000_0000,
        decreases hi - lo,
    {
        let mid = lo + (hi - lo) / 2;
        proof {
            assert(mid as int * mid as int <= 0x1_0000_0000_0000_0000) by (nonlinear_arith)
                requires
                    0 <= mid <= 0x1_0000_0000,
            ;
        }
        if (mid as u128) * (mid as u128) <= (n as u128) {
            lo = mid;
        } else {
            hi = mid;
        }
    }
    proof {
        if hi == 0x1_0000_0000 && !(n < hi * hi) {
            assert(n < 0x1_0000_0000 * 0x1_0000_0000) by (nonlinear_arith)
                requires
                    n <= u64::MAX,
            ;
        }
        assert(n < (lo + 1) * (lo + 1));
    }
    lo
}

/// The number of rows of `cs` bytes that `total` bytes fill, the last row
/// counted even when partial.
pub fn div_ceil(total: u64, cs: u64) -> (r: u64)
    requires
        1 <= cs,
        total <= u64::MAX - cs,
    ensures
        r * cs >= total,
        (r - 1) * cs < total,
{
    let q = total / cs;
    let r = if total % cs != 0 {
        q + 1
    } else {
        q
    };
    proof {
        vstd::arithmetic::div_mod::lemma_fundamental_div_mod(total as int, cs as int);
        vstd::arithmetic::div_mod::lemma_mod_bound(total as int, cs as int);
        assert((q + 1) * cs == q * cs + cs) by (nonlinear_arith);
        assert((q - 1) * cs == q * cs - cs) by (nonlinear_arith);
        assert(cs * (total as int / cs as int) == (total as int / cs as int) * cs)
            by (nonlinear_arith);
    }
    r
}

/// Derive the raster geometry for a file of `max_bytes` bytes.
///
/// Without overrides the width is the floor square root of the pixel count,
/// and the height the row count that covers the file. A width override
/// recomputes the height the same way; a height override recomputes the
/// width as the column count that covers the file; giving both is an error,
/// as is an unknown color type or a bit depth other than 8 or 16.
pub fn compute_geometry(
    max_bytes: u64,
    bit_depth: u8,
    color_type: u8,
    custom_width: Option<u64>,
    custom_height: Option<u64>,
) -> (r: Result<Geometry, Error>)
    requires
        max_bytes < 0x8000_0000_0000_0000,
        (bit_depth == 8 || bit_depth == 16) && spec_type_exists(color_type) ==> max_bytes
            >= spec_total_bytes(color_type, bit_depth),
        custom_width matches Some(w) ==> 1 <= w <= u32::MAX,
        custom_height matches Some(h) ==> 1 <= h <= u32::MAX,
    ensures
        ({
            let bpp = spec_total_bytes(color_type, bit_depth) as int;
            if !(bit_depth == 8 || bit_depth == 16) {
                r matches Err(e) && e is ParseBitDepth
            } else if !spec_type_exists(color_type) {
                r matches Err(e) && e is ParseColorType
            } else if custom_width is Some && custom_height is Some {
                r matches Err(e) && e is WidthAndHeightDefined
            } else {
                r matches Ok(g) && 1 <= g.width && g.chunk_size == g.width * bpp && (match
                    custom_width {
                    Some(w) => g.width == w,
                    None => {
                        match custom_height {
                            Some(h) => g.height == h && g.width * (h * bpp) >= max_bytes && (
                            g.width - 1) * (h * bpp) < max_bytes,
                            None => g.width * g.width <= max_bytes as int / bpp && max_bytes as int
                                / bpp < (g.width + 1) * (g.width + 1),
                        }
                    },
                }) && (custom_height is None ==> g.height * g.chunk_size >= max_bytes && (g.height
                    - 1) * g.chunk_size < max_bytes) && g.chunk_size * g.height >= max_bytes
            }
        }),
{
    if !(bit_depth == 8 || bit_depth == 16) {
        return Err(Error::ParseBitDepth(bit_depth.to_string()));
    }
    if !type_exists(color_type) {
        return Err(Error::ParseColorType(color_type.to_string()));
    }
    let bytes_per_px = total_bytes(color_type, bit_depth) as u64;

    let mut width: u64 = isqrt(max_bytes / bytes_per_px);
    proof {
        assert(1 <= bytes_per_px <= 8);
        assert(max_bytes as int / bytes_per_px as int >= 1) by (nonlinear_arith)
            requires
                max_bytes >= bytes_per_px,
                1 <= bytes_per_px,
        ;
        assert(width >= 1) by (nonlinear_arith)
            requires
                (width + 1) * (width + 1) > max_bytes as int / bytes_per_px as int,
                max_bytes as int / bytes_per_px as int >= 1,
                width >= 0,
        ;
        vstd::arithmetic::div_mod::lemma_fundamental_div_mod(max_bytes as int, bytes_per_px as int);
        vstd::arithmetic::div_mod::lemma_mod_bound(max_bytes as int, bytes_per_px as int);
        assert(bytes_per_px as int * (max_bytes as int / bytes_per_px as int) <= max_bytes as int);
        assert(width * bytes_per_px <= max_bytes) by (nonlinear_arith)
            requires
                width * width <= max_bytes as int / bytes_per_px as int,
                width >= 1,
                1 <= bytes_per_px,
                bytes_per_px as int * (max_bytes as int / bytes_per_px as int) <= max_bytes as int,
        ;
        assert(width * bytes_per_px >= 1) by (nonlinear_arith)
            requires
                width >= 1,
                bytes_per_px >= 1,
        ;
    }
    let mut chunk_size: u64 = width * bytes_per_px;
    let mut height: u64 = div_ceil(max_bytes, chunk_size);

    if custom_width.is_some() && custom_height.is_some() {
        return Err(Error::WidthAndHeightDefined);
    }

    match custom_width {
        Some(custom_width) => {
            width = custom_width;
            proof {
                assert(1 <= width * bytes_per_px <= 0x1_0000_0000u64 * 8) by (nonlinear_arith)
                    requires
                        1 <= width <= u32::MAX,
                        1 <= bytes_per_px <= 8,
                ;
            }
            chunk_size = width * bytes_per_px;
            height = div_ceil(max_bytes, chunk_size);
        },
        None => (),
    }

    match custom_height {
        Some(custom_height) => {
            height = custom_height;
            proof {
                assert(1 <= height * bytes_per_px <= 0x1_0000_0000u64 * 8) by (nonlinear_arith)
                    requires
                        1 <= height <= u32::MAX,
                        1 <= bytes_per_px <= 8,
                ;
            }
            let row = height * bytes_per_px;
            width = div_ceil(max_bytes, row);
            proof {
                assert(width >= 1) by (nonlinear_arith)
                    requires
                        width * row >= max_bytes,
                        max_bytes >= 1,
                        row >= 1,
                        width >= 0,
                ;
                assert(width * row <= max_bytes + row) by (nonlinear_arith)
                    requires
                        (width - 1) * row < max_bytes,
                ;
                assert(width * bytes_per_px <= width * row) by (nonlinear_arith)
                    requires
                        1 <= height,
                        0 <= width,
                        1 <= bytes_per_px,
                        row == height * bytes_per_px,
                ;
                assert((width * bytes_per_px) * height == width * (height * bytes_per_px))
                    by (nonlinear_arith);
            }
            chunk_size = width * bytes_per_px;
        },
        None => (),
    }

    proof {
        assert(chunk_size * height == height * chunk_size) by (nonlinear_arith);
    }
    Ok(Geometry { width, height, chunk_size })
}

} // verus!
