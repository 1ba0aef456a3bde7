//! Chunks: the length-prefixed, typed, checksummed records of the container.
//!
//! A chunk on the wire is `u32 length` (of the data), a 4-byte type tag,
//! `length` bytes of data, and the 32-bit checksum of type tag plus data.

use crate::bytes::{be32, bytes_eq, read_be_u32, u32_of_be, u32_to_be_bytes};
use crate::error::Error;
use crate::file::ReadFile;
use vstd::prelude::*;

verus! {

/// The 32-bit cyclic-redundancy checksum of a byte span.
pub uninterp spec fn crc32_of(data: Seq<u8>) -> u32;

/// Relies on crc32fast::hash: the standard CRC-32 checksum, a pure function
/// of the given bytes.
#[verifier::external_body]
fn crc32(data: &[u8]) -> (r: u32)
    ensures
        r == crc32_of(data@),
{
    crc32fast::hash(data)
}

/// The data length a chunk starting at `pos` declares.
pub open spec fn spec_chunk_len(s: Seq<u8>, pos: int) -> int {
    u32_of_be(s.subrange(pos, pos + 4)) as int
}

/// Whether a whole chunk (length, type, data, checksum) lies at `pos`.
pub open spec fn chunk_fits(s: Seq<u8>, pos: int) -> bool {
    &&& pos + 12 <= s.len()
    &&& pos + 12 + spec_chunk_len(s, pos) <= s.len()
}

/// The position just past the chunk starting at `pos`.
pub open spec fn chunk_end(s: Seq<u8>, pos: int) -> int {
    pos + 12 + spec_chunk_len(s, pos)
}

/// One parsed chunk: its type tag, data and stored checksum.
pub struct Chunk {
    pub header: Vec<u8>,
    pub data: Vec<u8>,
    pub crc: Vec<u8>,
    pub total_data: usize,
}

impl Chunk {
    /// The 4-byte type tag.
    pub open spec fn typ(&self) -> Seq<u8> {
        self.header@
    }

    /// The data bytes.
    pub open spec fn payload(&self) -> Seq<u8> {
        self.data@
    }

    /// The checksum bytes as stored on the wire.
    pub open spec fn stored_crc(&self) -> Seq<u8> {
        self.crc@
    }

    /// The shape every parsed chunk has.
    pub open spec fn wf(&self) -> bool {
        &&& self.typ().len() == 4
        &&& self.stored_crc().len() == 4
        &&& self.total_data == 12 + self.payload().len()
    }

    /// Read one whole chunk from the source: length, type, data, checksum.
    ///
    /// Gives `None` at clean end of input, and a `ReadChunk` error when the
    /// input ends inside a chunk.
    pub fn new(source: &mut ReadFile) -> (r: Result<Option<Self>, Error>)
        requires
            old(source).wf(),
        ensures
            final(source).wf(),
            final(source).contents() == old(source).contents(),
            ({
                let s = old(source).contents();
                let pos = old(source).position();
                if pos == s.len() {
                    r matches Ok(None) && final(source).position() == pos
                } else if !chunk_fits(s, pos) {
                    r matches Err(e) && e is ReadChunk
                } else {
                    r matches Ok(Some(c)) && c.wf() && c.typ() == s.subrange(pos + 4, pos + 8)
                        && c.payload() == s.subrange(pos + 8, pos + 8 + spec_chunk_len(s, pos))
                        && c.stored_crc() == s.subrange(
                        pos + 8 + spec_chunk_len(s, pos),
                        chunk_end(s, pos),
                    ) && final(source).position() == chunk_end(s, pos)
                }
            }),
    {
        let buf = source.read(4);
        if buf.len() == 0 {
            return Ok(None);
        }
        if buf.len() < 4 {
            return Err(Error::ReadChunk(String::new()));
        }
        let size = read_be_u32(buf.as_slice()) as usize;
        proof {
            assert(buf@.subrange(0, 4) =~= buf@);
        }
        let header = source.read(4);
        if header.len() < 4 {
            return Err(Error::ReadChunk(String::new()));
        }
        let data_buf = source.read(size);
        if data_buf.len() < size {
            return Err(Error::ReadChunk(String::new()));
        }
        let crc_buf = source.read(4);
        if crc_buf.len() < 4 {
            return Err(Error::ReadChunk(String::new()));
        }
        Ok(
            Some(
                Chunk {
                    header,
                    data: data_buf,
                    crc: crc_buf,
                    total_data: 12 + size,
                },
            ),
        )
    }

    /// The 4-byte type tag.
    pub fn get_header(&self) -> (r: &[u8])
        ensures
            r@ == self.typ(),
    {
        self.header.as_slice()
    }

    /// The data bytes.
    pub fn get_data(&self) -> (r: &[u8])
        ensures
            r@ == self.payload(),
    {
        self.data.as_slice()
    }

    /// Recompute the checksum over type tag plus data and compare it against
    /// the stored one.
    pub fn verify_crc(&self) -> (r: bool)
        ensures
            r == (self.stored_crc() == be32(crc32_of(self.typ() + self.payload()))),
    {
        let mut merged: Vec<u8> = Vec::new();
        crate::bytes::append_bytes(&mut merged, self.header.as_slice());
        crate::bytes::append_bytes(&mut merged, self.data.as_slice());
        proof {
            assert(Seq::<u8>::empty() + self.typ() + self.payload() =~= self.typ()
                + self.payload());
        }
        let computed = Chunk::get_crc(merged.as_slice());
        let r = bytes_eq(computed.as_slice(), self.crc.as_slice());
        r
    }

    /// The four big-endian checksum bytes of a byte span.
    pub fn get_crc(data: &[u8]) -> (r: [u8; 4])
        ensures
            r@ == be32(crc32_of(data@)),
    {
        u32_to_be_bytes(crc32(data))
    }
}

} // verus!
