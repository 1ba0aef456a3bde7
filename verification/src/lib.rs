use vstd::prelude::*;

pub mod bytes;
pub mod color_type;
pub mod chunk;
pub mod error;
pub mod decode;
pub mod encode;
pub mod file;
pub mod geometry;
pub mod parse;
pub mod progress_bar;
pub mod verbosity;
mod zlib;

verus! {

/// Enable terminal escape-code support. On this target nothing has to be
/// done, so it always succeeds.
pub fn enable_ansi_support() -> (r: Result<(), u32>)
    ensures
        r matches Ok(()),
{
    Ok(())
}

/// Validate a container from its start and leave the read position back at
/// the start, so conversion can proceed from a clean state.
pub fn verify(read_file: &mut crate::file::ReadFile) -> (r: Result<(), crate::error::Error>)
    requires
        old(read_file).wf(),
    ensures
        final(read_file).wf(),
        final(read_file).contents() == old(read_file).contents(),
        final(read_file).position() == 0,
        ({
            let s = old(read_file).contents();
            &&& (r matches Ok(())) <==> (crate::file::header_ok_at(s, 0) && crate::file::scan_chunks(
                s.skip(8),
            ) is AllValid)
            &&& (r matches Err(e) ==> (if !crate::file::header_ok_at(s, 0) {
                e is InvalidHeader
            } else if crate::file::scan_chunks(s.skip(8)) is BadCrc {
                e is InvalidCRC
            } else {
                e is ReadChunk
            }))
        }),
{
    let reset_result = read_file.reset();
    match reset_result {
        Ok(_) => (),
        Err(_) => (),
    }
    let outcome = read_file.verify_png();
    match read_file.reset() {
        Ok(_) => (),
        Err(_) => (),
    }
    outcome
}

/// Saturating subtraction on machine words: the clamped index arithmetic used
/// at stream boundaries, where a partial row can be shorter than the offset
/// being subtracted.
pub fn safe_usize(base: usize, sub: usize) -> (r: usize)
    ensures
        r == if sub > base { 0int } else { base - sub },
{
    if sub > base {
        0usize
    } else {
        base - sub
    }
}

/// Stripping a framed prefix gives back exactly the framed bytes: the two
/// halves of the scanline pipeline are inverses.
pub proof fn lemma_strip_frame(data: Seq<u8>, cs: int, t: int)
    requires
        1 <= cs,
        0 <= t <= data.len(),
    ensures
        crate::decode::strip_from(crate::encode::frame_prefix(data, cs, t), 0, cs + 1)
            == data.take(t),
    decreases t,
{
    let stride = cs + 1;
    if t == 0 {
        assert(data.take(0) =~= Seq::<u8>::empty());
    } else {
        lemma_strip_frame(data, cs, t - 1);
        crate::encode::lemma_frame_prefix_filters(data, cs, t - 1);
        let prev = crate::encode::frame_prefix(data, cs, t - 1);
        let l = prev.len() as int;
        vstd::arithmetic::div_mod::lemma_mod_bound(t - 1, cs);
        if (t - 1) % cs == 0 {
            let tail = seq![0u8, data[t - 1]];
            crate::decode::lemma_strip_concat(prev, tail, 0, stride);
            assert(l % stride == 0);
            assert((l + 1) % stride == 1) by {
                vstd::arithmetic::div_mod::lemma_add_mod_noop(l, 1, stride);
                vstd::arithmetic::div_mod::lemma_small_mod(1nat, stride as nat);
            }
            let d = data[t - 1];
            assert(crate::decode::strip_from(tail, l, stride) == crate::decode::strip_from(
                tail.skip(1),
                l + 1,
                stride,
            ));
            assert(tail.skip(1) =~= seq![d]);
            assert(crate::decode::strip_from(seq![d], l + 1, stride) == seq![d]
                + crate::decode::strip_from(seq![d].skip(1), l + 2, stride));
            assert(seq![d].skip(1) =~= Seq::<u8>::empty());
            assert(crate::decode::strip_from(Seq::<u8>::empty(), l + 2, stride)
                == Seq::<u8>::empty());
            assert(seq![d] + Seq::<u8>::empty() =~= seq![d]);
            assert(data.take(t - 1) + seq![d] =~= data.take(t));
        } else {
            let r = (t - 1) % cs;
            let tail = seq![data[t - 1]];
            crate::decode::lemma_strip_concat(prev, tail, 0, stride);
            assert(l % stride == r + 1);
            let d = data[t - 1];
            assert(crate::decode::strip_from(tail, l, stride) == seq![d]
                + crate::decode::strip_from(tail.skip(1), l + 1, stride));
            assert(tail.skip(1) =~= Seq::<u8>::empty());
            assert(crate::decode::strip_from(Seq::<u8>::empty(), l + 1, stride)
                == Seq::<u8>::empty());
            assert(seq![d] + Seq::<u8>::empty() =~= seq![d]);
            assert(data.take(t - 1) + seq![d] =~= data.take(t));
        }
    }
}

/// Round trip with trimming: stripping the framed stream of any byte
/// sequence reproduces that sequence exactly.
pub proof fn lemma_scanline_round_trip(data: Seq<u8>, cs: int, capacity: int)
    requires
        1 <= cs,
        data.len() <= capacity,
    ensures
        crate::decode::strip_spec(
            crate::encode::framed_stream(data, cs, capacity, true),
            cs + 1,
        ) == data,
{
    lemma_strip_frame(data, cs, data.len() as int);
    assert(data.take(data.len() as int) =~= data);
}

/// Framed prefixes read only the bytes before `t`.
proof fn lemma_frame_prefix_agree(d1: Seq<u8>, d2: Seq<u8>, cs: int, t: int)
    requires
        1 <= cs,
        0 <= t <= d1.len(),
        t <= d2.len(),
        d1.take(t) == d2.take(t),
    ensures
        crate::encode::frame_prefix(d1, cs, t) == crate::encode::frame_prefix(d2, cs, t),
    decreases t,
{
    if t > 0 {
        assert(d1.take(t - 1) =~= d2.take(t - 1)) by {
            assert(forall|j: int|
                0 <= j < t ==> #[trigger] d1.take(t)[j] == d2.take(t)[j]);
        }
        lemma_frame_prefix_agree(d1, d2, cs, t - 1);
        assert(d1[t - 1] == d1.take(t)[t - 1] && d2[t - 1] == d2.take(t)[t - 1]);
    }
}

/// Framing zero bytes that start no new row appends plain zeros.
proof fn lemma_frame_zeros_tail(padded: Seq<u8>, cs: int, start: int, t: int)
    requires
        1 <= cs,
        0 <= start <= t <= padded.len(),
        forall|j: int| start <= j < t ==> padded[j] == 0,
        forall|u: int| start < u <= t ==> #[trigger] ((u - 1) % cs) != 0,
    ensures
        crate::encode::frame_prefix(padded, cs, t) == crate::encode::frame_prefix(
            padded,
            cs,
            start,
        ) + crate::encode::zeros((t - start) as nat),
    decreases t - start,
{
    if t == start {
        assert(crate::encode::frame_prefix(padded, cs, start) + crate::encode::zeros(0) =~= crate::encode::frame_prefix(padded, cs, start));
    } else {
        lemma_frame_zeros_tail(padded, cs, start, t - 1);
        assert((t - 1) % cs != 0);
        assert(padded[t - 1] == 0);
        assert(crate::encode::frame_prefix(padded, cs, start) + crate::encode::zeros(
            (t - 1 - start) as nat,
        ) + seq![0u8] =~= crate::encode::frame_prefix(padded, cs, start) + crate::encode::zeros(
            (t - start) as nat,
        ));
    }
}

/// Round trip without trimming, at the geometry's own row count: the
/// stripped stream is the original bytes followed by the zero padding out to
/// the declared capacity.
pub proof fn lemma_round_trip_padded(data: Seq<u8>, cs: int, height: int)
    requires
        1 <= cs,
        0 <= height,
        data.len() <= cs * height,
        cs * (height - 1) < data.len(),
    ensures
        crate::decode::strip_spec(
            crate::encode::framed_stream(data, cs, cs * height, false),
            cs + 1,
        ) == data + crate::encode::zeros((cs * height - data.len()) as nat),
{
    let len = data.len() as int;
    let cap = cs * height;
    let padded = data + crate::encode::zeros((cap - len) as nat);
    assert forall|u: int| len < u <= cap implies #[trigger] ((u - 1) % cs) != 0 by {
        if (u - 1) % cs == 0 {
            vstd::arithmetic::div_mod::lemma_fundamental_div_mod(u - 1, cs);
            let k = (u - 1) / cs;
            assert(u - 1 == cs * k);
            assert(k < height) by (nonlinear_arith)
                requires
                    cs * k < cs * height,
                    cs >= 1,
            ;
            assert(k > height - 1) by (nonlinear_arith)
                requires
                    cs * k > cs * (height - 1),
                    cs >= 1,
            ;
        }
    }
    assert(data.take(len) =~= padded.take(len));
    lemma_frame_prefix_agree(padded, data, cs, len);
    lemma_frame_zeros_tail(padded, cs, len, cap);
    assert(crate::encode::frame_prefix(padded, cs, cap) == crate::encode::frame_prefix(
        data,
        cs,
        len,
    ) + crate::encode::zeros((cap - len) as nat));
    assert(crate::encode::framed_stream(data, cs, cap, false) == crate::encode::frame_prefix(
        padded,
        cs,
        cap,
    )) by {
        if cap == len {
            assert(crate::encode::frame_prefix(data, cs, len) + crate::encode::zeros(0)
                =~= crate::encode::frame_prefix(data, cs, len));
        }
    }
    lemma_strip_frame(padded, cs, cap);
    assert(padded.take(cap) =~= padded);
}

/// What a written container looks like to the decoder: the signature and
/// header chunk parse back to exactly the geometry used at encode time, and
/// hiding the chunk framing gives back exactly the compressed stream.
pub proof fn lemma_container_decodes(w: u32, h: u32, bit_depth: u8, color_type: u8, c: Seq<u8>, bs: int)
    requires
        1 <= bs <= u32::MAX,
    ensures
        ({
            let s = crate::encode::container_bytes(w, h, bit_depth, color_type, c, bs);
            &&& crate::file::header_ok_at(s, 0)
            &&& crate::chunk::chunk_fits(s, 8)
            &&& crate::chunk::spec_chunk_len(s, 8) == 13
            &&& crate::decode::ihdr_ok(s)
            &&& crate::decode::ihdr_width_of(s) == w
            &&& crate::bytes::u32_of_be(s.subrange(20, 24)) == h
            &&& s[24] == bit_depth
            &&& s[25] == color_type
            &&& crate::chunk::chunk_end(s, 8) == 33
            &&& crate::decode::extract_from(s, 33, 0) == Some(c)
        }),
{
    let s = crate::encode::container_bytes(w, h, bit_depth, color_type, c, bs);
    let ihdr = crate::encode::ihdr_data(w, h, bit_depth, color_type);
    let head = crate::file::png_magic() + crate::file::chunk_bytes(
        crate::encode::ihdr_tag(),
        ihdr,
    );
    let tail = crate::encode::idat_section(c, bs) + crate::file::chunk_bytes(
        crate::file::iend_tag(),
        Seq::empty(),
    );
    assert(ihdr.len() == 13);
    assert(head.len() == 33);
    assert(s =~= head + tail);
    assert(s.subrange(0, 8) =~= crate::file::png_magic());
    crate::bytes::lemma_be32_inverse(13);
    assert(s.subrange(8, 12) =~= crate::bytes::be32(13));
    crate::bytes::lemma_be32_inverse(w);
    assert(s.subrange(16, 20) =~= crate::bytes::be32(w));
    crate::bytes::lemma_be32_inverse(h);
    assert(s.subrange(20, 24) =~= crate::bytes::be32(h));
    assert(s[24] == ihdr[8] && s[25] == ihdr[9]);
    crate::decode::lemma_extract_shift(head, tail, 0, 0);
    crate::decode::lemma_extract_idat_section(c, bs);
}

/// Encode a byte sequence into a container and decode the container again:
/// with trimming the reconstruction is the original exactly, and without it
/// the original followed by its zero padding out to the declared capacity.
pub fn round_trip(
    data: Vec<u8>,
    width: u64,
    height: u64,
    bit_depth: u8,
    color_type: u8,
    buffer_size: usize,
    trim: bool,
) -> (r: Vec<u8>)
    requires
        crate::color_type::spec_type_exists(color_type),
        1 <= width <= u32::MAX,
        height <= u32::MAX,
        2 <= buffer_size <= u32::MAX,
        buffer_size + 12 <= usize::MAX,
        ({
            let cs = width * crate::color_type::spec_total_bytes(color_type, bit_depth);
            &&& 1 <= cs
            &&& data@.len() <= cs * height
            &&& cs * height <= u64::MAX
            &&& cs + 1 <= usize::MAX
            &&& (!trim ==> cs * (height - 1) < data@.len())
        }),
    ensures
        ({
            let cs = width * crate::color_type::spec_total_bytes(color_type, bit_depth);
            if trim {
                r@ == data@
            } else {
                r@ == data@ + crate::encode::zeros((cs * height - data@.len()) as nat)
            }
        }),
{
    let ghost dataseq = data@;
    let max_bytes = data.len() as u64;
    let bpp = crate::color_type::total_bytes(color_type, bit_depth) as u64;
    proof {
        assert(width * bpp <= 0x1_0000_0000u64 * 127) by (nonlinear_arith)
            requires
                1 <= width <= u32::MAX,
                bpp <= 127,
        ;
        vstd::arithmetic::mul::lemma_mul_upper_bound(
            crate::color_type::spec_type_to_size(color_type) as int,
            4,
            bit_depth as int,
            255,
        );
    }
    let chunk_size = width * bpp;
    let mut read_file = crate::file::ReadFile::new(data);
    let mut write_file = crate::file::WriteFile::new();
    let encoded = crate::encode::encode(
        &mut read_file,
        &mut write_file,
        width,
        height,
        chunk_size,
        max_bytes,
        buffer_size,
        bit_depth,
        color_type,
        trim,
    );
    match encoded {
        Ok(()) => (),
        Err(_) => (),
    }
    let ghost framed = crate::encode::framed_stream(
        dataseq,
        chunk_size as int,
        chunk_size * height,
        trim,
    );
    let ghost container = crate::encode::container_bytes(
        width as u32,
        height as u32,
        bit_depth,
        color_type,
        crate::zlib::deflate_of(framed),
        buffer_size as int,
    );
    proof {
        assert(write_file.contents() =~= container);
        lemma_container_decodes(
            width as u32,
            height as u32,
            bit_depth,
            color_type,
            crate::zlib::deflate_of(framed),
            buffer_size as int,
        );
        assert(crate::decode::stride_of(container) == chunk_size + 1);
        assert(crate::decode::decode_spec(container) == Some(
            crate::decode::strip_spec(framed, chunk_size as int + 1),
        ));
        if trim {
            lemma_scanline_round_trip(dataseq, chunk_size as int, chunk_size * height);
        } else {
            lemma_round_trip_padded(dataseq, chunk_size as int, height as int);
            assert((chunk_size as int) * (height as int) == chunk_size * height);
        }
    }
    let mut container_file = write_file.read();
    let mut out_file = crate::file::WriteFile::new();
    let decoded = crate::decode::decode(&mut container_file, &mut out_file, buffer_size);
    match decoded {
        Ok(()) => (),
        Err(_) => (),
    }
    let mut result: Vec<u8> = Vec::new();
    crate::bytes::append_bytes(&mut result, out_file.as_bytes().as_slice());
    proof {
        assert(result@ =~= out_file.contents());
        assert(out_file.contents() =~= crate::decode::strip_spec(framed, chunk_size as int + 1));
    }
    result
}

} // verus!

