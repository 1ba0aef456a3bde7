use pngifier::chunk::Chunk;
use pngifier::error::Error;
use pngifier::file::{ReadFile, WriteFile};

const MAGIC: [u8; 8] = [0x89, 0x50, 0x4e, 0x47, 0x0d, 0x0a, 0x1a, 0x0a];

#[test]
fn crc_of_known_tag() {
    // The checksum of the bare "IEND" tag in any container is AE 42 60 82.
    assert_eq!(Chunk::get_crc(b"IEND"), [0xae, 0x42, 0x60, 0x82]);
}

#[test]
fn crc_changes_with_data() {
    assert_ne!(Chunk::get_crc(b"IDAT"), Chunk::get_crc(b"IEND"));
    assert_ne!(Chunk::get_crc(b"IDATa"), Chunk::get_crc(b"IDATb"));
}

#[test]
fn write_header_emits_magic() {
    let mut w = WriteFile::new();
    assert_eq!(w.write_header(), 8);
    assert_eq!(w.as_bytes().as_slice(), &MAGIC);
}

#[test]
fn write_chunk_wire_format() {
    let mut w = WriteFile::new();
    let n = w.write_chunk(b"IEND", b"");
    assert_eq!(n, 12);
    assert_eq!(
        w.as_bytes().as_slice(),
        &[0, 0, 0, 0, b'I', b'E', b'N', b'D', 0xae, 0x42, 0x60, 0x82]
    );
}

#[test]
fn read_chunk_round_trip() {
    let mut w = WriteFile::new();
    w.write_chunk(b"IDAT", b"abc");
    let mut r = w.read();
    let c = r.read_chunk().unwrap().unwrap();
    assert_eq!(c.get_header(), b"IDAT");
    assert_eq!(c.get_data(), b"abc");
    assert_eq!(c.total_data, 15);
    assert!(c.verify_crc());
    // Clean end of input afterwards.
    assert!(matches!(r.read_chunk(), Ok(None)));
}

#[test]
fn read_chunk_truncated_fails() {
    let mut w = WriteFile::new();
    w.write_chunk(b"IDAT", b"abc");
    let mut bytes = w.as_bytes().clone();
    bytes.pop();
    let mut r = ReadFile::new(bytes);
    assert!(matches!(r.read_chunk(), Err(Error::ReadChunk(_))));
}

#[test]
fn corrupt_chunk_fails_crc() {
    let mut w = WriteFile::new();
    w.write_chunk(b"IDAT", b"abc");
    let mut bytes = w.as_bytes().clone();
    bytes[8] ^= 1; // flip one bit inside the data
    let mut r = ReadFile::new(bytes);
    let c = r.read_chunk().unwrap().unwrap();
    assert!(!c.verify_crc());
}

#[test]
fn verify_png_accepts_valid_container() {
    let mut w = WriteFile::new();
    w.write_header();
    w.write_chunk(b"IHDR", &[0, 0, 0, 3, 0, 0, 0, 4, 8, 0, 0, 0, 0]);
    w.write_chunk(b"IDAT", b"payload");
    w.write_chunk(b"IEND", b"");
    let mut r = w.read();
    assert!(r.verify_png().is_ok());
}

#[test]
fn verify_png_detects_every_single_bit_flip() {
    // Flipping any single bit of any chunk's type or data is caught as a
    // checksum error, never a silent pass.
    let mut w = WriteFile::new();
    w.write_header();
    w.write_chunk(b"IHDR", &[0, 0, 0, 3, 0, 0, 0, 4, 8, 0, 0, 0, 0]);
    w.write_chunk(b"IDAT", b"payload");
    w.write_chunk(b"IEND", b"");
    let clean = w.as_bytes().clone();
    // The first chunk's type+data bytes sit at offsets 12..29.
    for offset in 12..29 {
        for bit in 0..8 {
            let mut bytes = clean.clone();
            bytes[offset] ^= 1 << bit;
            let mut r = ReadFile::new(bytes);
            assert!(
                matches!(r.verify_png(), Err(Error::InvalidCRC(_))),
                "flip at {offset} bit {bit} slipped through"
            );
        }
    }
    // And a flip inside the data chunk's payload as well.
    let mut bytes = clean.clone();
    bytes[33 + 8] ^= 0x80;
    let mut r = ReadFile::new(bytes);
    assert!(matches!(r.verify_png(), Err(Error::InvalidCRC(_))));
}

#[test]
fn verify_png_rejects_bad_magic() {
    let mut w = WriteFile::new();
    w.write_header();
    w.write_chunk(b"IEND", b"");
    let mut bytes = w.as_bytes().clone();
    bytes[0] = 0x88;
    let mut r = ReadFile::new(bytes);
    assert!(matches!(r.verify_png(), Err(Error::InvalidHeader(_))));
}

#[test]
fn verify_png_rejects_missing_end_marker() {
    let mut w = WriteFile::new();
    w.write_header();
    w.write_chunk(b"IDAT", b"abc");
    let mut r = w.read();
    assert!(matches!(r.verify_png(), Err(Error::ReadChunk(_))));
}

#[test]
fn verify_resets_position() {
    let mut w = WriteFile::new();
    w.write_header();
    w.write_chunk(b"IEND", b"");
    let mut r = w.read();
    assert!(pngifier::verify(&mut r).is_ok());
    // The position is back at the start: the header reads again.
    assert!(r.read_header().is_ok());
}

#[test]
fn trim_removes_trailing_zeros() {
    let mut r = ReadFile::new(vec![1, 2, 3, 0, 0, 0]);
    r.trim().unwrap();
    let mut w = WriteFile::new();
    w.write(&[1, 2, 3, 0, 0, 0]);
    w.trim().unwrap();
    assert_eq!(w.as_bytes().as_slice(), &[1, 2, 3]);
    assert_eq!(r.size, 3);
}

#[test]
fn trim_leaves_all_zero_data_alone() {
    let mut w = WriteFile::new();
    w.write(&[0, 0, 0]);
    w.trim().unwrap();
    assert_eq!(w.as_bytes().as_slice(), &[0, 0, 0]);
}

#[test]
fn trim_without_trailing_zeros_is_identity() {
    let mut w = WriteFile::new();
    w.write(&[0, 7]);
    w.trim().unwrap();
    assert_eq!(w.as_bytes().as_slice(), &[0, 7]);
}
