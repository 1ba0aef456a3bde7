//! The generic lossless compression codec, treated as an opaque collaborator:
//! what it returns is named, not restated.

use std::io::Read;
use std::io::Write;
use vstd::prelude::*;

verus! {

/// The compressed form of a byte stream, at this library's fixed settings.
pub uninterp spec fn deflate_of(data: Seq<u8>) -> Seq<u8>;

/// The decompressed form of a byte stream; `None` where decoding fails.
pub uninterp spec fn inflate_of(data: Seq<u8>) -> Option<Seq<u8>>;

/// Relies on flate2's zlib encoder at the fixed fastest level: the output is
/// a function of the input bytes alone, and decoding it gives the input back.
#[verifier::external_body]
pub(crate) fn zlib_compress(data: &[u8]) -> (r: Vec<u8>)
    ensures
        r@ == deflate_of(data@),
        inflate_of(r@) == Some(data@),
{
    let mut encoder = flate2::write::ZlibEncoder::new(Vec::new(), flate2::Compression::fast());
    encoder.write_all(data).expect("writing to a vector cannot fail");
    encoder.finish().expect("writing to a vector cannot fail")
}

/// Relies on flate2's zlib decoder: decoding is a function of the input bytes
/// alone, and fails deterministically.
#[verifier::external_body]
pub(crate) fn zlib_decompress(data: &[u8]) -> (r: Option<Vec<u8>>)
    ensures
        r matches Some(v) ==> inflate_of(data@) == Some(v@),
        r is None ==> inflate_of(data@) is None,
{
    let mut decoder = flate2::read::ZlibDecoder::new(data);
    let mut out = Vec::new();
    match decoder.read_to_end(&mut out) {
        Ok(_) => Some(out),
        Err(_) => None,
    }
}

} // verus!
