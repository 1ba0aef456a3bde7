//! The encode pipeline: frame the original bytes into scanlines, compress
//! the framed stream, and wrap the compressed bytes into container chunks.

use crate::bytes::{append_bytes, append_range, u32_to_be_bytes};
use crate::error::Error;
use crate::file::{chunk_bytes, png_magic, ReadFile, WriteFile};
use crate::zlib::{deflate_of, inflate_of, zlib_compress};
use vstd::prelude::*;

verus! {

/// `n` zero bytes.
pub open spec fn zeros(n: nat) -> Seq<u8> {
    Seq::new(n, |i| 0u8)
}

/// The scanline-framed form of the first `t` bytes of `data`: rows of
/// `cs` bytes, each opened by a zero filter byte.
pub open spec fn frame_prefix(data: Seq<u8>, cs: int, t: int) -> Seq<u8>
    recommends
        1 <= cs,
        t <= data.len(),
    decreases t,
{
    if t <= 0 {
        Seq::empty()
    } else if (t - 1) % cs == 0 {
        frame_prefix(data, cs, t - 1) + seq![0u8, data[t - 1]]
    } else {
        frame_prefix(data, cs, t - 1) + seq![data[t - 1]]
    }
}

/// What the scanline source has emitted once it has accounted for `t` bytes:
/// the framed data, then zero padding once the data is exhausted.
pub open spec fn emitted_at(data: Seq<u8>, cs: int, t: int) -> Seq<u8>
    recommends
        1 <= cs,
{
    if t <= data.len() {
        frame_prefix(data, cs, t)
    } else {
        frame_prefix(data, cs, data.len() as int) + zeros((t - data.len()) as nat)
    }
}

/// The whole stream handed to the compressor: the framed data, padded with
/// zeros out to `capacity` unless trimming is requested.
pub open spec fn framed_stream(data: Seq<u8>, cs: int, capacity: int, trim: bool) -> Seq<u8>
    recommends
        1 <= cs,
        data.len() <= capacity,
{
    if trim {
        frame_prefix(data, cs, data.len() as int)
    } else {
        emitted_at(data, cs, capacity)
    }
}

/// Appending up to one row's worth of bytes extends the framed prefix by a
/// filter byte (at a row start) and the bytes themselves.
pub proof fn lemma_frame_extend(data: Seq<u8>, cs: int, t0: int, k: int)
    requires
        1 <= cs,
        0 <= t0,
        1 <= k,
        t0 + k <= data.len(),
        t0 % cs == 0 ==> k <= cs,
        t0 % cs != 0 ==> k <= cs - (t0 % cs),
    ensures
        frame_prefix(data, cs, t0 + k) == frame_prefix(data, cs, t0) + (if t0 % cs == 0 {
            seq![0u8]
        } else {
            Seq::<u8>::empty()
        }) + data.subrange(t0, t0 + k),
    decreases k,
{
    let r = t0 % cs;
    if k == 1 {
        if r == 0 {
            assert(frame_prefix(data, cs, t0) + seq![0u8, data[t0]] =~= frame_prefix(data, cs, t0)
                + seq![0u8] + data.subrange(t0, t0 + 1));
        } else {
            assert(frame_prefix(data, cs, t0) + seq![data[t0]] =~= frame_prefix(data, cs, t0)
                + Seq::<u8>::empty() + data.subrange(t0, t0 + 1));
        }
    } else {
        lemma_frame_extend(data, cs, t0, k - 1);
        vstd::arithmetic::div_mod::lemma_add_mod_noop(t0, k - 1, cs);
        vstd::arithmetic::div_mod::lemma_small_mod((k - 1) as nat, cs as nat);
        vstd::arithmetic::div_mod::lemma_small_mod((r + (k - 1)) as nat, cs as nat);
        assert((t0 + (k - 1)) % cs == r + (k - 1));
        assert(frame_prefix(data, cs, t0 + k) == frame_prefix(data, cs, t0 + k - 1) + seq![
            data[t0 + k - 1],
        ]);
        if r == 0 {
            assert(frame_prefix(data, cs, t0) + seq![0u8] + data.subrange(t0, t0 + k - 1) + seq![
                data[t0 + k - 1],
            ] =~= frame_prefix(data, cs, t0) + seq![0u8] + data.subrange(t0, t0 + k));
        } else {
            assert(frame_prefix(data, cs, t0) + Seq::<u8>::empty() + data.subrange(t0, t0 + k - 1)
                + seq![data[t0 + k - 1]] =~= frame_prefix(data, cs, t0) + Seq::<u8>::empty()
                + data.subrange(t0, t0 + k));
        }
    }
}

/// The type tag of the header chunk.
pub open spec fn ihdr_tag() -> Seq<u8> {
    seq![0x49u8, 0x48u8, 0x44u8, 0x52u8]
}

/// The type tag of the compressed-data chunks.
pub open spec fn idat_tag() -> Seq<u8> {
    seq![0x49u8, 0x44u8, 0x41u8, 0x54u8]
}

/// The 13 data bytes of the header chunk: width, height, bit depth, color
/// type, and the three fixed method bytes.
pub open spec fn ihdr_data(w: u32, h: u32, bit_depth: u8, color_type: u8) -> Seq<u8> {
    crate::bytes::be32(w) + crate::bytes::be32(h) + seq![bit_depth, color_type, 0u8, 0u8, 0u8]
}

/// The compressed stream cut into data chunks of at most `bs` bytes each.
pub open spec fn idat_section(c: Seq<u8>, bs: int) -> Seq<u8>
    recommends
        1 <= bs,
    decreases c.len(),
{
    if bs <= 0 || c.len() == 0 {
        Seq::empty()
    } else if c.len() <= bs {
        chunk_bytes(idat_tag(), c)
    } else {
        chunk_bytes(idat_tag(), c.take(bs)) + idat_section(c.skip(bs), bs)
    }
}

/// A whole container: signature, header chunk, the compressed stream cut
/// into data chunks, and the end marker.
pub open spec fn container_bytes(
    w: u32,
    h: u32,
    bit_depth: u8,
    color_type: u8,
    c: Seq<u8>,
    bs: int,
) -> Seq<u8> {
    png_magic() + chunk_bytes(ihdr_tag(), ihdr_data(w, h, bit_depth, color_type)) + idat_section(
        c,
        bs,
    ) + chunk_bytes(crate::file::iend_tag(), Seq::empty())
}

/// The pull-based scanline source: wraps the original bytes and emits them
/// row by row, each row opened by a zero filter byte, optionally zero-padded
/// out to the full raster capacity.
pub struct Transformer {
    /// Data bytes accounted for so far: source bytes consumed, plus padding
    /// bytes emitted once the source is exhausted. Filter bytes do not count.
    pub total_in: u64,
    /// Data bytes per row, without the filter byte.
    pub chunk_size: u64,
    /// Data bytes the whole raster holds: `chunk_size` times the row count.
    pub capacity: u64,
    /// Length of the source.
    pub max_bytes: u64,
    /// Whether to end at the source's last byte instead of padding.
    pub trim: bool,
}

impl Transformer {
    /// The state the pull steps keep.
    pub open spec fn wf(&self) -> bool {
        &&& 1 <= self.chunk_size
        &&& self.max_bytes <= self.capacity
        &&& self.capacity % self.chunk_size == 0
        &&& self.total_in <= self.capacity
        &&& self.trim ==> self.total_in <= self.max_bytes
    }

    /// Whether a pull in this state signals end of stream.
    pub open spec fn done(&self) -> bool {
        self.total_in == self.capacity || (self.trim && self.total_in == self.max_bytes)
    }

    /// One pull of at most `buf_len` bytes.
    ///
    /// Emits nothing exactly at end of stream; otherwise extends the emitted
    /// stream, never crossing a row boundary within a pull.
    pub fn read(&mut self, source: &Vec<u8>, buf_len: usize) -> (out: Vec<u8>)
        requires
            old(self).wf(),
            source@.len() == old(self).max_bytes,
            buf_len >= 2,
        ensures
            final(self).wf(),
            final(self).chunk_size == old(self).chunk_size,
            final(self).capacity == old(self).capacity,
            final(self).max_bytes == old(self).max_bytes,
            final(self).trim == old(self).trim,
            old(self).total_in <= final(self).total_in,
            emitted_at(source@, old(self).chunk_size as int, final(self).total_in as int)
                == emitted_at(source@, old(self).chunk_size as int, old(self).total_in as int)
                + out@,
            out@.len() == 0 <==> old(self).done(),
            old(self).done() ==> final(self).total_in == old(self).total_in,
            out@.len() <= buf_len,
    {
        let cs = self.chunk_size;
        let src_len: usize = source.len();
        if self.total_in == self.capacity {
            return Vec::new();
        }
        if self.total_in < self.max_bytes {
            let start = self.total_in as usize;
            let ghost t0 = self.total_in as int;
            if self.total_in % cs == 0 {
                let mut k: usize = buf_len - 1;
                if (k as u64) > cs {
                    k = cs as usize;
                }
                let remaining_src = self.max_bytes - self.total_in;
                if (k as u64) > remaining_src {
                    k = remaining_src as usize;
                }
                let mut out: Vec<u8> = Vec::new();
                out.push(0u8);
                append_range(&mut out, source, start, k);
                self.total_in = self.total_in + k as u64;
                proof {
                    lemma_frame_extend(source@, cs as int, t0, k as int);
                    assert(seq![0u8] + source@.subrange(t0, t0 + k) =~= out@);
                    assert(frame_prefix(source@, cs as int, t0) + seq![0u8] + source@.subrange(
                        t0,
                        t0 + k,
                    ) =~= frame_prefix(source@, cs as int, t0) + (seq![0u8] + source@.subrange(
                        t0,
                        t0 + k,
                    )));
                }
                out
            } else {
                let remaining_row = cs - self.total_in % cs;
                let mut k: usize = buf_len;
                if (k as u64) > remaining_row {
                    k = remaining_row as usize;
                }
                let remaining_src = self.max_bytes - self.total_in;
                if (k as u64) > remaining_src {
                    k = remaining_src as usize;
                }
                let mut out: Vec<u8> = Vec::new();
                append_range(&mut out, source, start, k);
                self.total_in = self.total_in + k as u64;
                proof {
                    lemma_frame_extend(source@, cs as int, t0, k as int);
                    assert(frame_prefix(source@, cs as int, t0) + Seq::<u8>::empty()
                        + source@.subrange(t0, t0 + k) =~= frame_prefix(source@, cs as int, t0)
                        + source@.subrange(t0, t0 + k));
                    assert(Seq::<u8>::empty() + source@.subrange(t0, t0 + k) =~= out@);
                }
                out
            }
        } else if self.trim {
            Vec::new()
        } else {
            let ghost t0 = self.total_in as int;
            let mut k: usize = buf_len;
            let remaining = self.capacity - self.total_in;
            if (k as u64) > remaining {
                k = remaining as usize;
            }
            let mut out: Vec<u8> = Vec::new();
            let mut i: usize = 0;
            while i < k
                invariant
                    i <= k,
                    out@ == zeros(i as nat),
                decreases k - i,
            {
                out.push(0u8);
                i += 1;
                proof {
                    assert(zeros((i - 1) as nat).push(0u8) =~= zeros(i as nat));
                }
            }
            self.total_in = self.total_in + k as u64;
            proof {
                let data = source@;
                let csi = cs as int;
                assert(emitted_at(data, csi, t0 + k) == frame_prefix(data, csi, data.len() as int)
                    + zeros((t0 + k - data.len()) as nat));
                assert(emitted_at(data, csi, t0) + out@ =~= frame_prefix(data, csi, data.len() as int)
                    + zeros((t0 + k - data.len()) as nat));
            }
            out
        }
    }
}

/// Encode the source file into a container appended to `write_file`: the
/// signature, a header chunk, the compressed scanline-framed stream cut into
/// data chunks of at most `buffer_size` bytes, and the end marker.
pub fn encode(
    read_file: &mut ReadFile,
    write_file: &mut WriteFile,
    width: u64,
    height: u64,
    chunk_size: u64,
    max_bytes: u64,
    buffer_size: usize,
    bit_depth: u8,
    color_type: u8,
    trim: bool,
) -> (r: Result<(), Error>)
    requires
        old(read_file).wf(),
        old(read_file).position() == 0,
        old(read_file).contents().len() == max_bytes,
        1 <= chunk_size,
        max_bytes <= chunk_size * height,
        chunk_size * height <= u64::MAX,
        width <= u32::MAX,
        height <= u32::MAX,
        2 <= buffer_size,
        buffer_size <= u32::MAX,
        buffer_size + 12 <= usize::MAX,
    ensures
        *final(read_file) == *old(read_file),
        r matches Ok(()),
        ({
            let framed = framed_stream(
                old(read_file).contents(),
                chunk_size as int,
                chunk_size * height,
                trim,
            );
            &&& final(write_file).contents() == old(write_file).contents() + container_bytes(
                width as u32,
                height as u32,
                bit_depth,
                color_type,
                deflate_of(framed),
                buffer_size as int,
            )
            &&& inflate_of(deflate_of(framed)) == Some(framed)
        }),
{
    let ghost data = read_file.contents();
    let ghost csi = chunk_size as int;
    let capacity = chunk_size * height;

    write_file.write_header();

    let mut ihdr: Vec<u8> = Vec::new();
    let wb = u32_to_be_bytes(width as u32);
    append_bytes(&mut ihdr, wb.as_slice());
    let hb = u32_to_be_bytes(height as u32);
    append_bytes(&mut ihdr, hb.as_slice());
    ihdr.push(bit_depth);
    ihdr.push(color_type);
    ihdr.push(0);
    ihdr.push(0);
    ihdr.push(0);
    proof {
        assert(ihdr@ =~= ihdr_data(width as u32, height as u32, bit_depth, color_type));
    }
    let ihdr_t: [u8; 4] = [0x49, 0x48, 0x44, 0x52];
    proof {
        assert(ihdr_t@ =~= ihdr_tag());
    }
    write_file.write_chunk(ihdr_t.as_slice(), ihdr.as_slice());

    let mut transformer = Transformer {
        total_in: 0,
        chunk_size,
        capacity,
        max_bytes,
        trim,
    };
    let mut framed: Vec<u8> = Vec::new();
    proof {
        vstd::arithmetic::div_mod::lemma_mod_multiples_basic(height as int, chunk_size as int);
        assert(chunk_size * height == height * chunk_size) by (nonlinear_arith);
        assert(emitted_at(data, csi, 0) =~= Seq::<u8>::empty());
    }
    loop
        invariant
            transformer.wf(),
            transformer.chunk_size == chunk_size,
            transformer.capacity == capacity,
            transformer.max_bytes == max_bytes,
            transformer.trim == trim,
            csi == chunk_size as int,
            1 <= chunk_size,
            buffer_size >= 2,
            *read_file == *old(read_file),
            data == read_file.contents(),
            data.len() == max_bytes,
            capacity == chunk_size * height,
            framed@ == emitted_at(data, csi, transformer.total_in as int),
        ensures
            *read_file == *old(read_file),
            framed@ == framed_stream(data, csi, capacity as int, trim),
        decreases capacity - transformer.total_in,
    {
        let ghost prev_total = transformer.total_in;
        let out = transformer.read(&read_file.data, buffer_size);
        if out.len() == 0 {
            proof {
                assert(framed@ == emitted_at(data, csi, transformer.total_in as int));
                if trim && transformer.total_in == max_bytes {
                    assert(emitted_at(data, csi, max_bytes as int) == frame_prefix(
                        data,
                        csi,
                        data.len() as int,
                    ));
                } else {
                    assert(transformer.total_in == capacity);
                    if trim {
                        assert(max_bytes == capacity);
                    }
                }
            }
            break;
        }
        append_bytes(&mut framed, out.as_slice());
        proof {
            if transformer.total_in == prev_total {
                assert(emitted_at(data, csi, prev_total as int) + out@ == emitted_at(
                    data,
                    csi,
                    prev_total as int,
                ));
                assert(out@.len() == 0);
            }
        }
    }

    let compressed = zlib_compress(framed.as_slice());
    let ghost c = compressed@;
    let ghost bs = buffer_size as int;
    let ghost base = write_file.contents();

    let idat_t: [u8; 4] = [0x49, 0x44, 0x41, 0x54];
    proof {
        assert(idat_t@ =~= idat_tag());
        assert(c.skip(0) =~= c);
    }
    let total = compressed.len();
    let mut offset: usize = 0;
    while offset < total
        invariant
            offset <= total,
            total == c.len(),
            c == compressed@,
            bs == buffer_size as int,
            2 <= buffer_size <= u32::MAX,
            buffer_size + 12 <= usize::MAX,
            idat_t@ == idat_tag(),
            write_file.contents() + idat_section(c.skip(offset as int), bs) == base
                + idat_section(c, bs),
        decreases total - offset,
    {
        let piece = if buffer_size < total - offset {
            buffer_size
        } else {
            total - offset
        };
        let end = offset + piece;
        let ghost rest = c.skip(offset as int);
        proof {
            assert(rest.len() == total - offset);
            if rest.len() <= bs {
                assert(rest =~= c.subrange(offset as int, end as int));
            } else {
                assert(rest.take(bs) =~= c.subrange(offset as int, end as int));
                assert(rest.skip(bs) =~= c.skip(end as int));
            }
        }
        let ghost before = write_file.contents();
        let mut piece_vec: Vec<u8> = Vec::new();
        append_range(&mut piece_vec, &compressed, offset, piece);
        proof {
            assert(piece_vec@ =~= c.subrange(offset as int, end as int));
        }
        write_file.write_chunk(idat_t.as_slice(), piece_vec.as_slice());
        proof {
            let ghost piece_bytes = c.subrange(offset as int, end as int);
            assert(write_file.contents() == before + chunk_bytes(idat_tag(), piece_bytes));
            if rest.len() <= bs {
                assert(idat_section(rest, bs) == chunk_bytes(idat_tag(), rest));
                assert(c.skip(end as int).len() == 0);
                assert(idat_section(c.skip(end as int), bs) == Seq::<u8>::empty());
                assert(write_file.contents() + idat_section(c.skip(end as int), bs) =~= before
                    + idat_section(rest, bs));
            } else {
                assert(idat_section(rest, bs) == chunk_bytes(idat_tag(), rest.take(bs))
                    + idat_section(rest.skip(bs), bs));
                assert(idat_section(rest, bs) == chunk_bytes(idat_tag(), piece_bytes)
                    + idat_section(c.skip(end as int), bs));
                assert(write_file.contents() + idat_section(c.skip(end as int), bs) =~= (before
                    + chunk_bytes(idat_tag(), piece_bytes)) + idat_section(c.skip(end as int), bs));
                assert((before + chunk_bytes(idat_tag(), piece_bytes)) + idat_section(
                    c.skip(end as int),
                    bs,
                ) =~= before + idat_section(rest, bs));
            }
            assert(write_file.contents() + idat_section(c.skip(end as int), bs) =~= base
                + idat_section(c, bs));
        }
        offset = end;
    }
    proof {
        assert(c.skip(total as int).len() == 0);
        assert(write_file.contents() + Seq::<u8>::empty() =~= write_file.contents());
        assert(write_file.contents() =~= base + idat_section(c, bs));
    }

    let iend_t: [u8; 4] = [0x49, 0x45, 0x4e, 0x44];
    let none: [u8; 0] = [];
    proof {
        assert(iend_t@ =~= crate::file::iend_tag());
        assert(none@ =~= Seq::<u8>::empty());
    }
    write_file.write_chunk(iend_t.as_slice(), none.as_slice());
    proof {
        let framed_s = framed_stream(data, csi, (chunk_size * height) as int, trim);
        assert(framed@ == framed_s);
        assert(final(write_file).contents() =~= old(write_file).contents() + container_bytes(
            width as u32,
            height as u32,
            bit_depth,
            color_type,
            deflate_of(framed_s),
            bs,
        ));
    }
    Ok(())
}

/// Where the filter bytes sit in a framed prefix: every position divisible
/// by the stride holds a zero, and the prefix ends a known distance into a
/// row.
pub proof fn lemma_frame_prefix_filters(data: Seq<u8>, cs: int, t: int)
    requires
        1 <= cs,
        0 <= t <= data.len(),
    ensures
        forall|p: int|
            0 <= p < frame_prefix(data, cs, t).len() && #[trigger] (p % (cs + 1)) == 0
                ==> frame_prefix(data, cs, t)[p] == 0,
        (frame_prefix(data, cs, t).len() as int) % (cs + 1) == (if t % cs == 0 {
            0int
        } else {
            t % cs + 1
        }),
    decreases t,
{
    let stride = cs + 1;
    if t == 0 {
        assert(frame_prefix(data, cs, t).len() == 0);
        vstd::arithmetic::div_mod::lemma_small_mod(0nat, stride as nat);
        vstd::arithmetic::div_mod::lemma_small_mod(0nat, cs as nat);
    } else {
        lemma_frame_prefix_filters(data, cs, t - 1);
        let prev = frame_prefix(data, cs, t - 1);
        let l = prev.len() as int;
        vstd::arithmetic::div_mod::lemma_add_mod_noop(t - 1, 1, cs);
        vstd::arithmetic::div_mod::lemma_add_mod_noop(l, 1, stride);
        vstd::arithmetic::div_mod::lemma_add_mod_noop(l, 2, stride);
        vstd::arithmetic::div_mod::lemma_mod_bound(t - 1, cs);
        vstd::arithmetic::div_mod::lemma_mod_bound(l, stride);
        if (t - 1) % cs == 0 {
            assert(l % stride == 0);
            let cur = prev + seq![0u8, data[t - 1]];
            assert(frame_prefix(data, cs, t) == cur);
            assert forall|p: int|
                0 <= p < cur.len() && #[trigger] (p % stride) == 0 implies cur[p] == 0 by {
                if p < l {
                } else {
                    vstd::arithmetic::div_mod::lemma_mod_bound(p, stride);
                    if p == l + 1 {
                        assert((l + 1) % stride == 1) by {
                            vstd::arithmetic::div_mod::lemma_small_mod(1nat, stride as nat);
                        }
                    }
                }
            }
            assert(cur.len() == l + 2);
            if cs == 1 {
                assert(t % cs == 0) by {
                    vstd::arithmetic::div_mod::lemma_mod_bound(t, cs);
                }
                assert((l + 2) % stride == 0) by {
                    vstd::arithmetic::div_mod::lemma_mod_multiples_vanish(1, l, stride);
                }
            } else {
                assert(t % cs == 1) by {
                    vstd::arithmetic::div_mod::lemma_small_mod(1nat, cs as nat);
                }
                assert((l + 2) % stride == 2) by {
                    vstd::arithmetic::div_mod::lemma_small_mod(2nat, stride as nat);
                }
            }
        } else {
            let r = (t - 1) % cs;
            assert(l % stride == r + 1);
            let cur = prev + seq![data[t - 1]];
            assert(frame_prefix(data, cs, t) == cur);
            assert forall|p: int|
                0 <= p < cur.len() && #[trigger] (p % stride) == 0 implies cur[p] == 0 by {
                if p < l {
                } else {
                    assert(p == l);
                    assert(l % stride == r + 1);
                }
            }
            assert(cur.len() == l + 1);
            assert(cs >= 2);
            assert(t % cs == (r + 1) % cs) by {
                vstd::arithmetic::div_mod::lemma_small_mod(1nat, cs as nat);
            }
            if r + 1 == cs {
                assert(t % cs == 0) by {
                    vstd::arithmetic::div_mod::lemma_mod_self_0(cs);
                }
                assert((l + 1) % stride == 0) by {
                    vstd::arithmetic::div_mod::lemma_add_mod_noop(l, 1, stride);
                    vstd::arithmetic::div_mod::lemma_small_mod(1nat, stride as nat);
                    assert((l + 1) % stride == (r + 2) % stride);
                    vstd::arithmetic::div_mod::lemma_mod_self_0(stride);
                }
            } else {
                assert(t % cs == r + 1) by {
                    vstd::arithmetic::div_mod::lemma_small_mod((r + 1) as nat, cs as nat);
                }
                assert((l + 1) % stride == r + 2) by {
                    vstd::arithmetic::div_mod::lemma_add_mod_noop(l, 1, stride);
                    vstd::arithmetic::div_mod::lemma_small_mod(1nat, stride as nat);
                    vstd::arithmetic::div_mod::lemma_small_mod((r + 2) as nat, stride as nat);
                }
            }
        }
    }
}

/// Every scanline's first byte in the stream handed to the compressor is
/// the zero "none" filter, at every row.
pub proof fn lemma_filter_invariant(data: Seq<u8>, cs: int, capacity: int, trim: bool)
    requires
        1 <= cs,
        data.len() <= capacity,
    ensures
        forall|p: int|
            0 <= p < framed_stream(data, cs, capacity, trim).len() && #[trigger] (p % (cs + 1))
                == 0 ==> framed_stream(data, cs, capacity, trim)[p] == 0,
{
    lemma_frame_prefix_filters(data, cs, data.len() as int);
    let framed = framed_stream(data, cs, capacity, trim);
    let prefix = frame_prefix(data, cs, data.len() as int);
    assert forall|p: int|
        0 <= p < framed.len() && #[trigger] (p % (cs + 1)) == 0 implies framed[p] == 0 by {
        if p < prefix.len() {
            assert(framed[p] == prefix[p]);
        } else {
            assert(!trim);
            assert(framed[p] == 0);
        }
    }
}

} // verus!
