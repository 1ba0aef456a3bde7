//! The decode pipeline: hide the chunk framing from the decompressor, then
//! strip the scanline filter bytes to reconstruct the original file.

use crate::bytes::{append_range, read_be_u32, u32_of_be};
use crate::chunk::{chunk_end, chunk_fits, spec_chunk_len};
use crate::color_type::{spec_total_bytes, spec_type_exists, spec_type_to_size, total_bytes, type_exists};
use crate::error::Error;
use crate::encode::idat_tag;
use crate::file::{header_ok_at, iend_tag, ReadFile, WriteFile};
use crate::safe_usize;
use crate::zlib::{inflate_of, zlib_decompress};
use vstd::prelude::*;

verus! {

/// The bytes of `s` that survive scanline stripping, when `s[0]` sits at
/// offset `off` of the decompressed stream: every byte at an offset divisible
/// by `stride` is a filter byte and is dropped.
pub open spec fn strip_from(s: Seq<u8>, off: int, stride: int) -> Seq<u8>
    recommends
        1 <= stride,
    decreases s.len(),
{
    if s.len() == 0 {
        Seq::empty()
    } else if off % stride == 0 {
        strip_from(s.skip(1), off + 1, stride)
    } else {
        seq![s[0]] + strip_from(s.skip(1), off + 1, stride)
    }
}

/// A whole decompressed stream with its filter bytes stripped.
pub open spec fn strip_spec(s: Seq<u8>, stride: int) -> Seq<u8> {
    strip_from(s, 0, stride)
}

/// Stripping a concatenation strips the parts at their offsets.
pub proof fn lemma_strip_concat(a: Seq<u8>, b: Seq<u8>, off: int, stride: int)
    requires
        1 <= stride,
    ensures
        strip_from(a + b, off, stride) == strip_from(a, off, stride) + strip_from(
            b,
            off + a.len(),
            stride,
        ),
    decreases a.len(),
{
    if a.len() == 0 {
        assert(a + b =~= b);
        assert(Seq::<u8>::empty() + strip_from(b, off, stride) =~= strip_from(b, off, stride));
    } else {
        assert((a + b).skip(1) =~= a.skip(1) + b);
        lemma_strip_concat(a.skip(1), b, off + 1, stride);
        if off % stride != 0 {
            assert(seq![a[0]] + (strip_from(a.skip(1), off + 1, stride) + strip_from(
                b,
                off + a.len(),
                stride,
            )) =~= (seq![a[0]] + strip_from(a.skip(1), off + 1, stride)) + strip_from(
                b,
                off + a.len(),
                stride,
            ));
        }
    }
}

/// Only the offset's remainder matters to stripping.
pub proof fn lemma_strip_congruent(s: Seq<u8>, o1: int, o2: int, stride: int)
    requires
        1 <= stride,
        o1 % stride == o2 % stride,
    ensures
        strip_from(s, o1, stride) == strip_from(s, o2, stride),
    decreases s.len(),
{
    if s.len() > 0 {
        vstd::arithmetic::div_mod::lemma_add_mod_noop(o1, 1, stride);
        vstd::arithmetic::div_mod::lemma_add_mod_noop(o2, 1, stride);
        lemma_strip_congruent(s.skip(1), o1 + 1, o2 + 1, stride);
    }
}

/// A span holding no filter byte is kept whole.
pub proof fn lemma_strip_nofilter(s: Seq<u8>, off: int, stride: int)
    requires
        1 <= stride,
        forall|p: int| 0 <= p < s.len() ==> #[trigger] ((off + p) % stride) != 0,
    ensures
        strip_from(s, off, stride) == s,
    decreases s.len(),
{
    if s.len() > 0 {
        assert((off + 0) % stride != 0);
        assert forall|p: int|
            0 <= p < s.skip(1).len() implies #[trigger] (((off + 1) + p) % stride) != 0 by {
            assert((off + (p + 1)) % stride != 0);
        }
        lemma_strip_nofilter(s.skip(1), off + 1, stride);
        assert(seq![s[0]] + s.skip(1) =~= s);
    }
}

/// One whole span of a row past its filter byte: what the offsets
/// `off .. off + len` look like when they stay inside one row.
proof fn lemma_row_span_nofilter(off: int, len: int, stride: int)
    requires
        1 <= stride,
        0 <= off,
        off % stride != 0 || len == 0,
        (off % stride) + len <= stride,
    ensures
        forall|p: int| 0 <= p < len ==> #[trigger] ((off + p) % stride) != 0,
{
    assert forall|p: int| 0 <= p < len implies #[trigger] ((off + p) % stride) != 0 by {
        vstd::arithmetic::div_mod::lemma_add_mod_noop(off, p, stride);
        vstd::arithmetic::div_mod::lemma_small_mod(p as nat, stride as nat);
        vstd::arithmetic::div_mod::lemma_small_mod(((off % stride) + p) as nat, stride as nat);
    }
}

/// Consume one span of decompressed bytes: skip the filter byte that opens
/// each complete row, write the row bodies, and hand back the new offset
/// within the current row.
///
/// `remainder` says how far into a row the previous span ended; `chunk_size`
/// is the stride, one filter byte plus the row's data bytes.
pub fn strip_rows(
    write_file: &mut WriteFile,
    slice: &Vec<u8>,
    remainder: usize,
    chunk_size: usize,
) -> (new_rem: usize)
    requires
        1 <= chunk_size,
        remainder < chunk_size,
        remainder + slice@.len() <= usize::MAX,
    ensures
        final(write_file).contents() == old(write_file).contents() + strip_from(
            slice@,
            remainder as int,
            chunk_size as int,
        ),
        new_rem == (remainder + slice@.len()) % (chunk_size as int),
{
    let len = slice.len();
    let remaining: usize = (remainder + len) % chunk_size;
    let complete: usize = (remainder + len) / chunk_size;
    let ghost stride = chunk_size as int;
    let ghost rem = remainder as int;
    let ghost s = slice@;
    proof {
        vstd::arithmetic::div_mod::lemma_fundamental_div_mod(rem + s.len(), stride);
        assert(stride * (complete as int) == (complete as int) * stride) by (nonlinear_arith);
        assert(strip_from(s.subrange(0, 0), rem, stride) == Seq::<u8>::empty());
        assert(old(write_file).contents() + Seq::<u8>::empty() =~= old(write_file).contents());
    }
    let mut i: usize = 0;
    while i < complete
        invariant
            i <= complete,
            complete == (rem + s.len()) / stride,
            remaining == (rem + s.len()) % stride,
            complete * stride <= rem + s.len(),
            1 <= stride,
            0 <= rem < stride,
            stride == chunk_size as int,
            rem == remainder as int,
            s == slice@,
            rem + s.len() <= usize::MAX,
            write_file.contents() == old(write_file).contents() + strip_from(
                s.subrange(0, covered(i as int, rem, stride)),
                rem,
                stride,
            ),
        decreases complete - i,
    {
        proof {
            vstd::arithmetic::mul::lemma_mul_inequality(i + 1, complete as int, stride);
            assert((i + 1) * stride == i * stride + stride) by (nonlinear_arith);
            if i >= 1 {
                vstd::arithmetic::mul::lemma_mul_inequality(1, i as int, stride);
            }
        }
        let start = safe_usize(i * chunk_size + 1, remainder);
        let end = safe_usize((i + 1) * chunk_size, remainder);
        let ghost before = write_file.contents();
        let mut row: Vec<u8> = Vec::new();
        append_range(&mut row, slice, start, end - start);
        write_file.write(row.as_slice());
        proof {
            let c0 = covered(i as int, rem, stride);
            let c1 = covered(i + 1, rem, stride);
            assert(s.subrange(0, c1) =~= s.subrange(0, c0) + s.subrange(c0, c1));
            lemma_strip_concat(s.subrange(0, c0), s.subrange(c0, c1), rem, stride);
            assert(rem + c0 == if i == 0 {
                rem
            } else {
                i * stride
            });
            let seg = s.subrange(c0, c1);
            if i == 0 && rem > 0 {
                vstd::arithmetic::div_mod::lemma_small_mod(rem as nat, stride as nat);
                lemma_row_span_nofilter(rem, seg.len() as int, stride);
                lemma_strip_nofilter(seg, rem, stride);
                assert(start == 0 && end == stride - rem);
                assert(row@ =~= seg);
            } else {
                assert((rem + c0) % stride == 0) by {
                    if i == 0 {
                        vstd::arithmetic::div_mod::lemma_small_mod(0nat, stride as nat);
                    } else {
                        vstd::arithmetic::div_mod::lemma_mod_multiples_basic(i as int, stride);
                    }
                }
                assert(strip_from(seg, rem + c0, stride) == strip_from(
                    seg.skip(1),
                    rem + c0 + 1,
                    stride,
                ));
                if stride > 1 {
                    assert((rem + c0 + 1) % stride == 1) by {
                        vstd::arithmetic::div_mod::lemma_add_mod_noop(rem + c0, 1, stride);
                        vstd::arithmetic::div_mod::lemma_small_mod(1nat, stride as nat);
                    }
                    lemma_row_span_nofilter(rem + c0 + 1, seg.len() - 1, stride);
                    lemma_strip_nofilter(seg.skip(1), rem + c0 + 1, stride);
                } else {
                    assert(seg.len() == 1);
                    assert(seg.skip(1).len() == 0);
                }
                assert(start == c1 - (stride - 1) && end == c1);
                assert(row@ =~= seg.skip(1));
            }
            assert(write_file.contents() =~= old(write_file).contents() + strip_from(
                s.subrange(0, c1),
                rem,
                stride,
            ));
        }
        i += 1;
    }
    if remaining != 0 {
        let shift = safe_usize(complete * chunk_size + 1, remainder);
        let ghost c0 = covered(complete as int, rem, stride);
        proof {
            if complete > 0 {
                vstd::arithmetic::mul::lemma_mul_inequality(1, complete as int, stride);
            }
            assert(0 <= c0 <= s.len());
            vstd::arithmetic::div_mod::lemma_fundamental_div_mod(rem + s.len(), stride);
            assert(stride * (complete as int) == (complete as int) * stride) by (nonlinear_arith);
        }
        let mut tail: Vec<u8> = Vec::new();
        append_range(&mut tail, slice, shift, len - shift);
        write_file.write(tail.as_slice());
        proof {
            assert(s.subrange(0, s.len() as int) =~= s.subrange(0, c0) + s.subrange(
                c0,
                s.len() as int,
            ));
            lemma_strip_concat(s.subrange(0, c0), s.subrange(c0, s.len() as int), rem, stride);
            let seg = s.subrange(c0, s.len() as int);
            if complete == 0 && rem > 0 {
                assert(rem + s.len() < stride) by {
                    vstd::arithmetic::div_mod::lemma_fundamental_div_mod(rem + s.len(), stride);
                    vstd::arithmetic::div_mod::lemma_mod_bound(rem + s.len(), stride);
                }
                vstd::arithmetic::div_mod::lemma_small_mod(rem as nat, stride as nat);
                lemma_row_span_nofilter(rem, seg.len() as int, stride);
                lemma_strip_nofilter(seg, rem, stride);
                assert(shift == 0);
                assert(tail@ =~= seg);
            } else {
                assert((rem + c0) % stride == 0) by {
                    if complete == 0 {
                        vstd::arithmetic::div_mod::lemma_small_mod(0nat, stride as nat);
                    } else {
                        vstd::arithmetic::div_mod::lemma_mod_multiples_basic(
                            complete as int,
                            stride,
                        );
                    }
                }
                assert(rem + s.len() == complete * stride + remaining) by {
                    vstd::arithmetic::div_mod::lemma_fundamental_div_mod(rem + s.len(), stride);
                }
                assert(seg.len() == remaining);
                assert(strip_from(seg, rem + c0, stride) == strip_from(
                    seg.skip(1),
                    rem + c0 + 1,
                    stride,
                ));
                assert((rem + c0 + 1) % stride == 1) by {
                    vstd::arithmetic::div_mod::lemma_add_mod_noop(rem + c0, 1, stride);
                    if stride > 1 {
                        vstd::arithmetic::div_mod::lemma_small_mod(1nat, stride as nat);
                    } else {
                        vstd::arithmetic::div_mod::lemma_mod_self_0(stride);
                    }
                }
                assert(stride > 1) by {
                    if stride == 1 {
                        assert(remaining == 0);
                    }
                }
                lemma_row_span_nofilter(rem + c0 + 1, seg.len() - 1, stride);
                lemma_strip_nofilter(seg.skip(1), rem + c0 + 1, stride);
                assert(shift == c0 + 1);
                assert(tail@ =~= seg.skip(1));
            }
            assert(write_file.contents() =~= old(write_file).contents() + strip_from(
                s.subrange(0, s.len() as int),
                rem,
                stride,
            ));
            assert(s.subrange(0, s.len() as int) =~= s);
        }
    } else {
        proof {
            let c0 = covered(complete as int, rem, stride);
            assert(rem + s.len() == complete * stride) by {
                vstd::arithmetic::div_mod::lemma_fundamental_div_mod(rem + s.len(), stride);
                assert(stride * (complete as int) == (complete as int) * stride)
                    by (nonlinear_arith);
            }
            if complete == 0 {
                assert((0int) * stride == 0) by (nonlinear_arith);
                assert(rem == 0 && s.len() == 0);
            }
            assert(c0 == s.len());
            assert(s.subrange(0, s.len() as int) =~= s);
        }
    }
    remaining
}

/// How many leading bytes of a span the first `i` complete rows cover, when
/// the span starts `rem` bytes into a row.
pub open spec fn covered(i: int, rem: int, stride: int) -> int {
    if i == 0 {
        0
    } else {
        i * stride - rem
    }
}

/// The concatenated chunk payloads from `pos` up to (not including) the end
/// marker, with `in_chunk` payload bytes still owed in the current chunk;
/// `None` when the input ends inside the framing.
pub open spec fn extract_from(s: Seq<u8>, pos: int, in_chunk: int) -> Option<Seq<u8>>
    decreases s.len() - pos,
{
    if pos < 0 || pos > s.len() || in_chunk < 0 {
        None
    } else if in_chunk > 0 {
        if pos + in_chunk + 4 <= s.len() {
            match extract_from(s, pos + in_chunk + 4, 0) {
                Some(rest) => Some(s.subrange(pos, pos + in_chunk) + rest),
                None => None,
            }
        } else {
            None
        }
    } else if pos + 8 <= s.len() {
        if s.subrange(pos + 4, pos + 8) == iend_tag() {
            Some(Seq::empty())
        } else if pos + 12 + chunk_data_len(s, pos) <= s.len() {
            match extract_from(s, pos + 12 + chunk_data_len(s, pos), 0) {
                Some(rest) => Some(
                    s.subrange(pos + 8, pos + 8 + chunk_data_len(s, pos)) + rest,
                ),
                None => None,
            }
        } else {
            None
        }
    } else {
        None
    }
}

/// The data length the chunk at `pos` declares.
pub open spec fn chunk_data_len(s: Seq<u8>, pos: int) -> int {
    u32_of_be(s.subrange(pos, pos + 4)) as int
}

/// The pull-based chunk-hiding source: wraps the container and serves the
/// bare compressed stream, transparently skipping each chunk's length, type
/// and checksum framing, and stopping at the end marker.
pub struct Transformer {
    /// Payload bytes of the current chunk not yet served.
    pub buffer_size: usize,
    /// Bytes consumed from the container so far.
    pub total_read: usize,
}

impl Transformer {
    /// One pull of at most `n` bytes of the compressed stream.
    ///
    /// Serves nothing exactly at the end marker; a `ReadChunk` error means
    /// the container ends inside a chunk's framing.
    pub fn read(&mut self, source: &mut ReadFile, n: usize) -> (r: Result<Vec<u8>, Error>)
        requires
            old(source).wf(),
            1 <= n,
        ensures
            final(source).wf(),
            final(source).contents() == old(source).contents(),
            final(source).size == old(source).size,
            final(source).position() >= old(source).position(),
            ({
                let s = old(source).contents();
                let pos = old(source).position();
                let ic = old(self).buffer_size as int;
                match extract_from(s, pos, ic) {
                    Some(p) => {
                        r matches Ok(out) && out@.len() <= n && out@.len() <= p.len() && out@
                            == p.take(out@.len() as int) && (out@.len() == 0 <==> p.len() == 0) && (
                        p.len() > 0
                            ==> extract_from(
                            s,
                            final(source).position(),
                            final(self).buffer_size as int,
                        ) == Some(p.skip(out@.len() as int)) && final(source).position() > pos)
                    },
                    None => {
                        (r matches Err(e) && e is ReadChunk) || (r matches Ok(out) && out@.len()
                            > 0 && extract_from(
                            s,
                            final(source).position(),
                            final(self).buffer_size as int,
                        ) is None && final(source).position() > pos)
                    },
                }
            }),
    {
        let ghost s = source.contents();
        let ghost pos0 = source.position();
        let ghost ic0 = self.buffer_size as int;
        if self.buffer_size > 0 {
            let k = if self.buffer_size < n {
                self.buffer_size
            } else {
                n
            };
            let got = source.read(k);
            if got.len() < k {
                return Err(Error::ReadChunk(String::new()));
            }
            self.bump_total(k);
            if self.buffer_size == k {
                self.buffer_size = 0;
                let crc = source.read(4);
                if crc.len() < 4 {
                    return Err(Error::ReadChunk(String::new()));
                }
                self.bump_total(4);
            } else {
                self.buffer_size = self.buffer_size - k;
            }
            proof {
                match extract_from(s, pos0, ic0) {
                    Some(p) => {
                        let rest = extract_from(s, pos0 + ic0 + 4, 0).unwrap();
                        assert(p == s.subrange(pos0, pos0 + ic0) + rest);
                        assert(got@ =~= p.take(k as int));
                        if k < ic0 {
                            assert(s.subrange(pos0 + k, pos0 + ic0) + rest =~= p.skip(k as int));
                        } else {
                            assert(rest =~= p.skip(k as int));
                        }
                    },
                    None => {},
                }
            }
            return Ok(got);
        }
        loop
            invariant
                source.wf(),
                source.contents() == s,
                s == old(source).contents(),
                source.size == old(source).size,
                self.buffer_size == 0,
                source.position() >= pos0,
                pos0 == old(source).position(),
                ic0 == old(self).buffer_size as int,
                ic0 == 0,
                1 <= n,
                extract_from(s, source.position(), 0) == extract_from(s, pos0, ic0),
            decreases s.len() - source.position(),
        {
            let ghost hpos = source.position();
            let hdr = source.read(8);
            if hdr.len() < 8 {
                return Err(Error::ReadChunk(String::new()));
            }
            self.bump_total(8);
            let len = read_be_u32(hdr.as_slice()) as usize;
            proof {
                assert(hdr@.subrange(0, 4) =~= s.subrange(hpos, hpos + 4));
                assert(hdr@.subrange(4, 8) =~= s.subrange(hpos + 4, hpos + 8));
            }
            if hdr[4] == 0x49 && hdr[5] == 0x45 && hdr[6] == 0x4e && hdr[7] == 0x44 {
                proof {
                    assert(s.subrange(hpos + 4, hpos + 8) =~= iend_tag());
                }
                let empty_out: Vec<u8> = Vec::new();
                proof {
                    assert(empty_out@ =~= Seq::<u8>::empty());
                }
                return Ok(empty_out);
            }
            proof {
                assert(s.subrange(hpos + 4, hpos + 8) != iend_tag()) by {
                    if s.subrange(hpos + 4, hpos + 8) == iend_tag() {
                        assert(hdr@[4] == iend_tag()[0] && hdr@[5] == iend_tag()[1] && hdr@[6]
                            == iend_tag()[2] && hdr@[7] == iend_tag()[3]);
                    }
                }
                assert(chunk_data_len(s, hpos) == len);
            }
            if len == 0 {
                let crc = source.read(4);
                if crc.len() < 4 {
                    return Err(Error::ReadChunk(String::new()));
                }
                self.bump_total(4);
                proof {
                    match extract_from(s, hpos + 12, 0) {
                        Some(rest) => {
                            assert(s.subrange(hpos + 8, hpos + 8) + rest =~= rest);
                        },
                        None => {},
                    }
                    assert(extract_from(s, hpos, 0) == extract_from(s, hpos + 12, 0));
                }
            } else {
                let k = if len < n {
                    len
                } else {
                    n
                };
                let got = source.read(k);
                if got.len() < k {
                    return Err(Error::ReadChunk(String::new()));
                }
                self.bump_total(k);
                if k == len {
                    let crc = source.read(4);
                    if crc.len() < 4 {
                        return Err(Error::ReadChunk(String::new()));
                    }
                    self.bump_total(4);
                    self.buffer_size = 0;
                } else {
                    self.buffer_size = len - k;
                }
                proof {
                    match extract_from(s, hpos, 0) {
                        Some(p) => {
                            let rest = extract_from(s, hpos + 12 + len, 0).unwrap();
                            assert(p == s.subrange(hpos + 8, hpos + 8 + len) + rest);
                            assert(got@ =~= p.take(k as int));
                            if k < len {
                                assert(s.subrange(hpos + 8 + k, hpos + 8 + len) + rest =~= p.skip(
                                    k as int,
                                ));
                            } else {
                                assert(rest =~= p.skip(k as int));
                            }
                        },
                        None => {},
                    }
                }
                return Ok(got);
            }
        }
    }

    /// Count more consumed container bytes, stopping at the counter's top.
    fn bump_total(&mut self, k: usize)
        ensures
            final(self).buffer_size == old(self).buffer_size,
    {
        if k > usize::MAX - self.total_read {
            self.total_read = usize::MAX;
        } else {
            self.total_read = self.total_read + k;
        }
    }
}

/// The header-chunk fields a decode reads: width, bit depth, color type.
pub open spec fn ihdr_width_of(s: Seq<u8>) -> u32 {
    u32_of_be(s.subrange(16, 20))
}

/// Whether the container opens with a header chunk long enough to carry the
/// geometry fields.
pub open spec fn ihdr_ok(s: Seq<u8>) -> bool {
    chunk_fits(s, 8) && spec_chunk_len(s, 8) >= 10
}

/// The stride a decode reconstructs from the header chunk: one filter byte
/// plus a row of pixels.
pub open spec fn stride_of(s: Seq<u8>) -> int {
    ihdr_width_of(s) * spec_total_bytes(s[25], s[24]) + 1
}

/// What a decode of container `s` gives back: the decompressed data-chunk
/// payloads with the scanline filter bytes stripped; `None` when the
/// container is malformed or does not decompress.
pub open spec fn decode_spec(s: Seq<u8>) -> Option<Seq<u8>> {
    if !header_ok_at(s, 0) {
        None
    } else if !ihdr_ok(s) {
        None
    } else if !spec_type_exists(s[25]) {
        None
    } else if stride_of(s) > usize::MAX {
        None
    } else {
        match extract_from(s, chunk_end(s, 8), 0) {
            Some(p) => match inflate_of(p) {
                Some(raw) => Some(strip_spec(raw, stride_of(s))),
                None => None,
            },
            None => None,
        }
    }
}

/// Decode a container back into the original file's bytes, appended to
/// `write_file`: validate the signature, read the header chunk, feed the
/// hidden compressed stream to the decompressor in pulls of at most
/// `buffer_size` bytes, and strip the scanline framing from what comes out.
pub fn decode(read_file: &mut ReadFile, write_file: &mut WriteFile, buffer_size: usize) -> (r:
    Result<(), Error>)
    requires
        old(read_file).wf(),
        old(read_file).position() == 0,
        1 <= buffer_size,
    ensures
        final(read_file).wf(),
        final(read_file).contents() == old(read_file).contents(),
        ({
            let s = old(read_file).contents();
            match decode_spec(s) {
                Some(out) => r matches Ok(()) && final(write_file).contents() == old(
                    write_file,
                ).contents() + out,
                None => r matches Err(e) && final(write_file).contents() == old(
                    write_file,
                ).contents() && (if !header_ok_at(s, 0) {
                    e is InvalidHeader
                } else if !ihdr_ok(s) {
                    e is ReadChunk
                } else if !spec_type_exists(s[25]) {
                    e is ParseColorType
                } else if stride_of(s) > usize::MAX {
                    e is Decode
                } else if extract_from(s, chunk_end(s, 8), 0) is None {
                    e is ReadChunk
                } else {
                    e is Decode
                }),
            }
        }),
{
    let ghost s = read_file.contents();
    match read_file.read_header() {
        Ok(()) => (),
        Err(e) => {
            return Err(e);
        },
    }
    let hdat_chunk = match read_file.read_chunk() {
        Err(e) => {
            return Err(e);
        },
        Ok(None) => {
            return Err(Error::ReadChunk(String::new()));
        },
        Ok(Some(c)) => c,
    };
    let hdat = hdat_chunk.get_data();
    if hdat.len() < 10 {
        return Err(Error::ReadChunk(String::new()));
    }
    let width = read_be_u32(hdat);
    let bit_depth = hdat[8];
    let color_type = hdat[9];
    proof {
        assert(hdat@.subrange(0, 4) =~= s.subrange(16, 20));
        assert(hdat@[8] == s[24] && hdat@[9] == s[25]);
    }
    if !type_exists(color_type) {
        return Err(Error::ParseColorType(String::new()));
    }
    let multiplier = total_bytes(color_type, bit_depth);
    proof {
        vstd::arithmetic::mul::lemma_mul_upper_bound(
            spec_type_to_size(color_type) as int,
            4,
            bit_depth as int,
            255,
        );
        assert(spec_total_bytes(color_type, bit_depth) <= 127);
        vstd::arithmetic::mul::lemma_mul_upper_bound(width as int, 0xffffffff, multiplier as int, 127);
    }
    let stride64: u64 = (width as u64) * (multiplier as u64) + 1;
    proof {
        assert(stride64 as int == stride_of(s));
    }
    if stride64 > (usize::MAX as u64) {
        return Err(Error::Decode(String::new()));
    }
    let chunk_size = stride64 as usize;
    proof {
        assert(chunk_size as int == stride_of(s));
    }

    let ghost anchor = read_file.position();
    let mut transformer = Transformer { buffer_size: 0, total_read: 0 };
    let mut compressed: Vec<u8> = Vec::new();
    proof {
        assert(anchor == chunk_end(s, 8));
        match extract_from(s, anchor, 0) {
            Some(p0) => {
                assert(compressed@ =~= p0.take(0));
                assert(p0.skip(0) =~= p0);
            },
            None => {},
        }
    }
    loop
        invariant_except_break
            ({
                match extract_from(s, anchor, 0) {
                    Some(p0) => {
                        compressed@.len() <= p0.len() && compressed@ == p0.take(
                            compressed@.len() as int,
                        ) && extract_from(
                            s,
                            read_file.position(),
                            transformer.buffer_size as int,
                        ) == Some(p0.skip(compressed@.len() as int))
                    },
                    None => extract_from(
                        s,
                        read_file.position(),
                        transformer.buffer_size as int,
                    ) is None,
                }
            }),
        invariant
            read_file.wf(),
            read_file.contents() == s,
            s == old(read_file).contents(),
            read_file.size == old(read_file).size,
            1 <= buffer_size,
            anchor == chunk_end(s, 8),
            read_file.position() >= 0,
            header_ok_at(s, 0),
            ihdr_ok(s),
            spec_type_exists(s[25]),
            stride_of(s) <= usize::MAX,
        ensures
            read_file.wf(),
            read_file.contents() == s,
            read_file.size == old(read_file).size,
            extract_from(s, anchor, 0) matches Some(p0) && compressed@ == p0,
        decreases s.len() - read_file.position(),
    {
        let ghost prev_pos = read_file.position();
        let out = match transformer.read(read_file, buffer_size) {
            Err(_) => {
                return Err(Error::ReadChunk(String::new()));
            },
            Ok(v) => v,
        };
        if out.len() == 0 {
            proof {
                match extract_from(s, anchor, 0) {
                    Some(p0) => {
                        let c = compressed@.len() as int;
                        assert(p0.skip(c).len() == 0);
                        assert(compressed@ =~= p0);
                    },
                    None => {},
                }
            }
            break;
        }
        let ghost old_comp = compressed@;
        crate::bytes::append_bytes(&mut compressed, out.as_slice());
        proof {
            match extract_from(s, anchor, 0) {
                Some(p0) => {
                    let c = old_comp.len() as int;
                    let k = out@.len() as int;
                    let p = p0.skip(c);
                    assert(out@ == p.take(k));
                    assert(compressed@ =~= p0.take(c + k));
                    assert(p.skip(k) =~= p0.skip(c + k));
                },
                None => {},
            }
        }
    }

    let raw = match zlib_decompress(compressed.as_slice()) {
        None => {
            return Err(Error::Decode(String::new()));
        },
        Some(v) => v,
    };

    let ghost rawseq = raw@;
    let ghost base = write_file.contents();
    let mut remainder: usize = 0;
    let mut offset: usize = 0;
    proof {
        assert(rawseq.subrange(0, 0) =~= Seq::<u8>::empty());
        assert(base + Seq::<u8>::empty() =~= base);
        vstd::arithmetic::div_mod::lemma_small_mod(0nat, chunk_size as nat);
    }
    while offset < raw.len()
        invariant
            offset <= rawseq.len(),
            rawseq == raw@,
            1 <= chunk_size,
            1 <= buffer_size,
            base == old(write_file).contents(),
            remainder as int == offset as int % (chunk_size as int),
            remainder < chunk_size,
            write_file.contents() == base + strip_from(
                rawseq.subrange(0, offset as int),
                0,
                chunk_size as int,
            ),
        decreases rawseq.len() - offset,
    {
        let mut piece_len = raw.len() - offset;
        if piece_len > buffer_size {
            piece_len = buffer_size;
        }
        if piece_len > usize::MAX - remainder {
            piece_len = usize::MAX - remainder;
        }
        let mut piece: Vec<u8> = Vec::new();
        append_range(&mut piece, &raw, offset, piece_len);
        let ghost before = write_file.contents();
        let new_rem = strip_rows(write_file, &piece, remainder, chunk_size);
        proof {
            let cs = chunk_size as int;
            let off = offset as int;
            let k = piece_len as int;
            assert(piece@ =~= rawseq.subrange(off, off + k));
            assert(rawseq.subrange(0, off + k) =~= rawseq.subrange(0, off) + rawseq.subrange(
                off,
                off + k,
            ));
            lemma_strip_concat(rawseq.subrange(0, off), rawseq.subrange(off, off + k), 0, cs);
            vstd::arithmetic::div_mod::lemma_small_mod(remainder as nat, cs as nat);
            lemma_strip_congruent(rawseq.subrange(off, off + k), off, remainder as int, cs);
            vstd::arithmetic::div_mod::lemma_add_mod_noop(off, k, cs);
            vstd::arithmetic::div_mod::lemma_add_mod_noop(remainder as int, k, cs);
            vstd::arithmetic::div_mod::lemma_mod_twice(off, cs);
            assert((off + k) % cs == (remainder as int + k) % cs);
            assert(write_file.contents() =~= base + strip_from(
                rawseq.subrange(0, off + k),
                0,
                cs,
            ));
        }
        remainder = new_rem;
        offset = offset + piece_len;
    }
    proof {
        assert(rawseq.subrange(0, rawseq.len() as int) =~= rawseq);
    }
    Ok(())
}

/// Extraction depends only on the bytes from the position on: a common
/// prefix can be cut away.
pub proof fn lemma_extract_shift(a: Seq<u8>, b: Seq<u8>, pos: int, ic: int)
    requires
        0 <= pos,
    ensures
        extract_from(a + b, a.len() + pos, ic) == extract_from(b, pos, ic),
    decreases b.len() - pos + 1,
{
    let s = a + b;
    let q = a.len() + pos;
    if pos > b.len() || ic < 0 {
    } else if ic > 0 {
        if pos + ic + 4 <= b.len() {
            lemma_extract_shift(a, b, pos + ic + 4, 0);
            assert(s.subrange(q, q + ic) =~= b.subrange(pos, pos + ic));
        }
    } else if pos + 8 <= b.len() {
        assert(s.subrange(q, q + 4) =~= b.subrange(pos, pos + 4));
        assert(s.subrange(q + 4, q + 8) =~= b.subrange(pos + 4, pos + 8));
        assert(chunk_data_len(s, q) == chunk_data_len(b, pos));
        let len = chunk_data_len(b, pos);
        if b.subrange(pos + 4, pos + 8) == iend_tag() {
        } else if pos + 12 + len <= b.len() {
            lemma_extract_shift(a, b, pos + 12 + len, 0);
            assert(s.subrange(q + 8, q + 8 + len) =~= b.subrange(pos + 8, pos + 8 + len));
        }
    }
}

/// One data chunk per payload, then the end marker: hiding the chunk framing
/// gives back exactly the payloads' concatenation, however the stream was
/// split across chunks.
pub proof fn lemma_chunk_hiding(payloads: Seq<Seq<u8>>)
    requires
        forall|i: int| 0 <= i < payloads.len() ==> (#[trigger] payloads[i]).len() <= u32::MAX,
    ensures
        extract_from(
            chunks_of(payloads) + crate::file::chunk_bytes(iend_tag(), Seq::empty()),
            0,
            0,
        ) == Some(concat_of(payloads)),
    decreases payloads.len(),
{
    let iend_chunk = crate::file::chunk_bytes(iend_tag(), Seq::empty());
    if payloads.len() == 0 {
        let s = chunks_of(payloads) + iend_chunk;
        assert(s =~= iend_chunk);
        crate::bytes::lemma_be32_inverse(0);
        assert(s.subrange(4, 8) =~= iend_tag());
    } else {
        let p = payloads[0];
        let first = crate::file::chunk_bytes(idat_tag(), p);
        let tail = chunks_of(payloads.skip(1)) + iend_chunk;
        let s = chunks_of(payloads) + iend_chunk;
        assert(s =~= first + tail);
        lemma_chunk_hiding(payloads.skip(1));
        lemma_parse_data_chunk(p, tail);
        lemma_extract_shift(first, tail, 0, 0);
        assert(p + concat_of(payloads.skip(1)) =~= concat_of(payloads));
    }
}

/// The wire bytes of one data chunk per payload, in order.
pub open spec fn chunks_of(payloads: Seq<Seq<u8>>) -> Seq<u8>
    decreases payloads.len(),
{
    if payloads.len() == 0 {
        Seq::empty()
    } else {
        crate::file::chunk_bytes(idat_tag(), payloads[0]) + chunks_of(payloads.skip(1))
    }
}

/// The payloads' concatenation.
pub open spec fn concat_of(payloads: Seq<Seq<u8>>) -> Seq<u8>
    decreases payloads.len(),
{
    if payloads.len() == 0 {
        Seq::empty()
    } else {
        payloads[0] + concat_of(payloads.skip(1))
    }
}

/// How a data chunk at the front of the stream extracts: its payload, then
/// whatever the rest extracts to.
proof fn lemma_parse_data_chunk(p: Seq<u8>, tail: Seq<u8>)
    requires
        p.len() <= u32::MAX,
    ensures
        ({
            let first = crate::file::chunk_bytes(idat_tag(), p);
            extract_from(first + tail, 0, 0) == (match extract_from(first + tail, first.len() as int, 0) {
                Some(rest) => Some(p + rest),
                None => None,
            })
        }),
{
    let first = crate::file::chunk_bytes(idat_tag(), p);
    let s = first + tail;
    let len = p.len() as int;
    crate::bytes::lemma_be32_inverse(p.len() as u32);
    assert(s.subrange(0, 4) =~= crate::bytes::be32(p.len() as u32));
    assert(chunk_data_len(s, 0) == len);
    assert(s.subrange(4, 8) =~= idat_tag());
    assert(s.subrange(4, 8) != iend_tag()) by {
        assert(idat_tag()[2] != iend_tag()[2]);
    }
    assert(first.len() == 12 + len);
    assert(s.subrange(8, 8 + len) =~= p);
}

/// The compressed stream cut into data chunks and closed with the end
/// marker extracts back to exactly that stream, whatever the cut size.
#[verifier::rlimit(100)]
pub proof fn lemma_extract_idat_section(c: Seq<u8>, bs: int)
    requires
        1 <= bs <= u32::MAX,
    ensures
        extract_from(
            crate::encode::idat_section(c, bs) + crate::file::chunk_bytes(
                iend_tag(),
                Seq::empty(),
            ),
            0,
            0,
        ) == Some(c),
    decreases c.len(),
{
    let iend_chunk = crate::file::chunk_bytes(iend_tag(), Seq::empty());
    if c.len() == 0 {
        let s = crate::encode::idat_section(c, bs) + iend_chunk;
        assert(s =~= iend_chunk);
        crate::bytes::lemma_be32_inverse(0);
        assert(s.subrange(4, 8) =~= iend_tag());
    } else if c.len() <= bs {
        let first = crate::file::chunk_bytes(idat_tag(), c);
        let s = crate::encode::idat_section(c, bs) + iend_chunk;
        assert(s =~= first + iend_chunk);
        lemma_parse_data_chunk(c, iend_chunk);
        lemma_extract_shift(first, iend_chunk, 0, 0);
        crate::bytes::lemma_be32_inverse(0);
        assert(iend_chunk.subrange(4, 8) =~= iend_tag());
        assert(c + Seq::<u8>::empty() =~= c);
    } else {
        let piece = c.take(bs);
        let first = crate::file::chunk_bytes(idat_tag(), piece);
        let tail = crate::encode::idat_section(c.skip(bs), bs) + iend_chunk;
        let s = crate::encode::idat_section(c, bs) + iend_chunk;
        assert(s =~= first + tail);
        lemma_extract_idat_section(c.skip(bs), bs);
        lemma_parse_data_chunk(piece, tail);
        lemma_extract_shift(first, tail, 0, 0);
        assert(piece + c.skip(bs) =~= c);
    }
}

} // verus!
