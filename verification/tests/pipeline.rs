use pngifier::decode::decode;
use pngifier::encode::{encode, Transformer};
use pngifier::file::{ReadFile, WriteFile};
use pngifier::error::Error;
use pngifier::round_trip;
use std::io::Read;

fn encode_bytes(
    data: Vec<u8>,
    width: u64,
    height: u64,
    bit_depth: u8,
    color_type: u8,
    buffer_size: usize,
    trim: bool,
) -> Vec<u8> {
    let channels: u64 = match color_type {
        0 => 1,
        2 => 3,
        4 => 2,
        _ => 4,
    };
    let chunk_size = width * channels * (bit_depth as u64) / 8;
    let max_bytes = data.len() as u64;
    let mut read_file = ReadFile::new(data);
    let mut write_file = WriteFile::new();
    encode(
        &mut read_file,
        &mut write_file,
        width,
        height,
        chunk_size,
        max_bytes,
        buffer_size,
        bit_depth,
        color_type,
        trim,
    )
    .unwrap();
    write_file.as_bytes().clone()
}

fn decode_bytes(container: Vec<u8>, buffer_size: usize) -> Vec<u8> {
    let mut read_file = ReadFile::new(container);
    let mut write_file = WriteFile::new();
    decode(&mut read_file, &mut write_file, buffer_size).unwrap();
    write_file.as_bytes().clone()
}

#[test]
fn ten_bytes_round_trip_with_trim() {
    // The worked scenario: 10 bytes, grayscale, 8-bit, width 3, height 4.
    let data: Vec<u8> = vec![10, 20, 30, 40, 50, 60, 70, 80, 90, 100];
    let container = encode_bytes(data.clone(), 3, 4, 8, 0, 4096, true);
    // The header chunk records exactly that geometry.
    let mut r = ReadFile::new(container.clone());
    r.read_header().unwrap();
    let ihdr = r.read_chunk().unwrap().unwrap();
    assert_eq!(ihdr.get_header(), b"IHDR");
    assert_eq!(ihdr.get_data(), &[0, 0, 0, 3, 0, 0, 0, 4, 8, 0, 0, 0, 0]);
    let out = decode_bytes(container, 4096);
    assert_eq!(out, data);
}

#[test]
fn round_trip_many_sizes() {
    for n in [0usize, 1, 2, 3, 4, 9, 10, 11, 255, 256, 1000] {
        let data: Vec<u8> = (0..n).map(|i| (i % 251 + 1) as u8).collect();
        let container = encode_bytes(data.clone(), 3, ((n as u64) + 2) / 3, 8, 0, 64, true);
        let out = decode_bytes(container, 64);
        assert_eq!(out, data, "length {n}");
    }
}

#[test]
fn round_trip_function_reproduces_input() {
    let data: Vec<u8> = (0..100u8).collect();
    let out = round_trip(data.clone(), 7, 15, 8, 0, 4096, true);
    assert_eq!(out, data);
}

#[test]
fn round_trip_truecolor_16_bit() {
    let data: Vec<u8> = (0..50).map(|i| (255 - i) as u8).collect();
    // 3 channels at 16 bits: 6 bytes per pixel, width 2, rows of 12.
    let container = encode_bytes(data.clone(), 2, 5, 16, 2, 33, true);
    let out = decode_bytes(container, 17);
    assert_eq!(out, data);
}

#[test]
fn round_trip_without_trim_pads_to_capacity() {
    let data: Vec<u8> = vec![1, 2, 3, 4, 5, 6, 7, 8, 9, 10];
    // Width 3, height 4: capacity 12, so two zero bytes of padding.
    let container = encode_bytes(data.clone(), 3, 4, 8, 0, 4096, false);
    let out = decode_bytes(container, 4096);
    let mut expected = data.clone();
    expected.extend_from_slice(&[0, 0]);
    assert_eq!(out, expected);
    // Trimming that result reproduces the original, which does not end in a
    // zero byte.
    let mut w = WriteFile::new();
    w.write(&out);
    w.trim().unwrap();
    assert_eq!(w.as_bytes(), &data);
}

#[test]
fn trim_after_decode_loses_original_trailing_zeros() {
    // The documented limitation: an original that itself ends in zero bytes
    // comes back shorter once trimmed.
    let data: Vec<u8> = vec![9, 9, 0, 0];
    let container = encode_bytes(data.clone(), 2, 2, 8, 0, 4096, false);
    let out = decode_bytes(container, 4096);
    assert_eq!(out, data);
    let mut w = WriteFile::new();
    w.write(&out);
    w.trim().unwrap();
    assert_eq!(w.as_bytes().as_slice(), &[9, 9]);
}

#[test]
fn chunk_split_does_not_matter() {
    // Rebuild the same compressed stream as many single-byte data chunks:
    // the decoder must not care how the stream was split.
    let data: Vec<u8> = (0..60).map(|i| (i * 7 % 256) as u8).collect();
    let container = encode_bytes(data.clone(), 4, 15, 8, 0, 4096, true);

    let mut r = ReadFile::new(container);
    r.read_header().unwrap();
    let ihdr = r.read_chunk().unwrap().unwrap();
    let mut payload: Vec<u8> = Vec::new();
    loop {
        let c = r.read_chunk().unwrap().unwrap();
        if c.get_header() == b"IEND" {
            break;
        }
        payload.extend_from_slice(c.get_data());
    }

    let mut rebuilt = WriteFile::new();
    rebuilt.write_header();
    rebuilt.write_chunk(b"IHDR", ihdr.get_data());
    for byte in &payload {
        rebuilt.write_chunk(b"IDAT", &[*byte]);
    }
    rebuilt.write_chunk(b"IEND", b"");

    let out = decode_bytes(rebuilt.as_bytes().clone(), 4096);
    assert_eq!(out, data);
}

#[test]
fn empty_data_chunks_are_skipped() {
    let data: Vec<u8> = vec![5, 6, 7];
    let container = encode_bytes(data.clone(), 3, 1, 8, 0, 4096, true);
    let mut r = ReadFile::new(container);
    r.read_header().unwrap();
    let ihdr = r.read_chunk().unwrap().unwrap();
    let mut payload: Vec<u8> = Vec::new();
    loop {
        let c = r.read_chunk().unwrap().unwrap();
        if c.get_header() == b"IEND" {
            break;
        }
        payload.extend_from_slice(c.get_data());
    }
    let mut rebuilt = WriteFile::new();
    rebuilt.write_header();
    rebuilt.write_chunk(b"IHDR", ihdr.get_data());
    rebuilt.write_chunk(b"IDAT", b"");
    rebuilt.write_chunk(b"IDAT", &payload);
    rebuilt.write_chunk(b"IDAT", b"");
    rebuilt.write_chunk(b"IEND", b"");
    let out = decode_bytes(rebuilt.as_bytes().clone(), 4096);
    assert_eq!(out, data);
}

#[test]
fn every_scanline_starts_with_the_none_filter() {
    // Decompress the raw stream of a container and look at each row's first
    // byte: it is always the zero "none" filter.
    let data: Vec<u8> = (1..=30).collect();
    let width = 4u64;
    let stride = 4 + 1;
    let container = encode_bytes(data.clone(), width, 8, 8, 0, 4096, false);
    let mut r = ReadFile::new(container);
    r.read_header().unwrap();
    let _ihdr = r.read_chunk().unwrap().unwrap();
    let mut payload: Vec<u8> = Vec::new();
    loop {
        let c = r.read_chunk().unwrap().unwrap();
        if c.get_header() == b"IEND" {
            break;
        }
        payload.extend_from_slice(c.get_data());
    }
    let mut decoder = flate2::read::ZlibDecoder::new(payload.as_slice());
    let mut raw = Vec::new();
    decoder.read_to_end(&mut raw).unwrap();
    assert_eq!(raw.len() % stride, 0);
    for row in 0..raw.len() / stride {
        assert_eq!(raw[row * stride], 0, "row {row}");
    }
}

#[test]
fn scanline_source_emits_filters_and_padding() {
    // Pull the scanline source by hand: rows of three data bytes, each
    // opened by a zero filter byte, then zero padding to capacity.
    let source: Vec<u8> = vec![1, 2, 3, 4];
    let mut t = Transformer {
        total_in: 0,
        chunk_size: 3,
        capacity: 6,
        max_bytes: 4,
        trim: false,
    };
    let mut emitted: Vec<u8> = Vec::new();
    loop {
        let out = t.read(&source, 4096);
        if out.is_empty() {
            break;
        }
        emitted.extend_from_slice(&out);
    }
    assert_eq!(emitted, vec![0, 1, 2, 3, 0, 4, 0, 0]);
}

#[test]
fn scanline_source_small_pulls() {
    // Tiny pulls never cross a row boundary and still produce the same
    // stream.
    let source: Vec<u8> = vec![1, 2, 3, 4, 5];
    let mut t = Transformer {
        total_in: 0,
        chunk_size: 2,
        capacity: 6,
        max_bytes: 5,
        trim: false,
    };
    let mut emitted: Vec<u8> = Vec::new();
    loop {
        let out = t.read(&source, 2);
        if out.is_empty() {
            break;
        }
        emitted.extend_from_slice(&out);
    }
    assert_eq!(emitted, vec![0, 1, 2, 0, 3, 4, 0, 5, 0]);
}

#[test]
fn scanline_source_trim_stops_at_source_end() {
    let source: Vec<u8> = vec![1, 2, 3, 4];
    let mut t = Transformer {
        total_in: 0,
        chunk_size: 3,
        capacity: 6,
        max_bytes: 4,
        trim: true,
    };
    let mut emitted: Vec<u8> = Vec::new();
    loop {
        let out = t.read(&source, 4096);
        if out.is_empty() {
            break;
        }
        emitted.extend_from_slice(&out);
    }
    assert_eq!(emitted, vec![0, 1, 2, 3, 0, 4]);
}

#[test]
fn decode_rejects_garbage() {
    let mut w = WriteFile::new();
    let mut out = WriteFile::new();
    let mut r = ReadFile::new(vec![1, 2, 3]);
    assert!(matches!(
        decode(&mut r, &mut out, 4096),
        Err(Error::InvalidHeader(_))
    ));
    w.write_header();
    w.write_chunk(b"IHDR", &[0, 0, 0, 3, 0, 0, 0, 4, 8, 0, 0, 0, 0]);
    w.write_chunk(b"IDAT", b"not a compressed stream");
    w.write_chunk(b"IEND", b"");
    let mut r2 = w.read();
    let mut out2 = WriteFile::new();
    assert!(matches!(
        decode(&mut r2, &mut out2, 4096),
        Err(Error::Decode(_))
    ));
}

#[test]
fn decode_rejects_truncated_container() {
    let data: Vec<u8> = (0..20).collect();
    let mut container = encode_bytes(data, 4, 5, 8, 0, 4096, true);
    container.truncate(container.len() - 13);
    let mut r = ReadFile::new(container);
    let mut out = WriteFile::new();
    assert!(matches!(
        decode(&mut r, &mut out, 4096),
        Err(Error::ReadChunk(_))
    ));
}
