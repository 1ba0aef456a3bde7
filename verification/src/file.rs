//! Container input and output over in-memory byte buffers.
//!
//! `WriteFile` collects the container bytes an encode produces; `ReadFile`
//! serves the bytes of a container (or of an original file) to the decoder.
//! Reading and writing the surrounding real files is left to the caller.

use crate::bytes::{append_bytes, be32, bytes_eq, u32_of_be, u32_to_be_bytes};
use crate::chunk::{chunk_end, chunk_fits, crc32_of, spec_chunk_len, Chunk};
use crate::error::Error;
use vstd::prelude::*;

verus! {

/// The fixed 8-byte container signature.
pub open spec fn png_magic() -> Seq<u8> {
    seq![0x89u8, 0x50u8, 0x4eu8, 0x47u8, 0x0du8, 0x0au8, 0x1au8, 0x0au8]
}

/// The type tag of the end-marker chunk.
pub open spec fn iend_tag() -> Seq<u8> {
    seq![0x49u8, 0x45u8, 0x4eu8, 0x44u8]
}

/// The wire form of one chunk: data length, type tag, data, checksum of type
/// tag plus data.
pub open spec fn chunk_bytes(typ: Seq<u8>, data: Seq<u8>) -> Seq<u8> {
    be32(data.len() as u32) + typ + data + be32(crc32_of(typ + data))
}

/// What a scan of a chunk sequence finds.
pub enum ScanOutcome {
    /// Every chunk up to and including an end marker carries its correct
    /// checksum.
    AllValid,
    /// Some chunk's stored checksum disagrees with its contents.
    BadCrc,
    /// The input ends before an end-marker chunk is complete.
    Truncated,
}

/// Scan chunks from the front of `s`: stop at the first checksum mismatch,
/// succeed at the first end marker whose checksum holds.
pub open spec fn scan_chunks(s: Seq<u8>) -> ScanOutcome
    decreases s.len(),
{
    if s.len() < 12 {
        ScanOutcome::Truncated
    } else {
        let len = u32_of_be(s.subrange(0, 4)) as int;
        if s.len() < 12 + len {
            ScanOutcome::Truncated
        } else {
            let typ = s.subrange(4, 8);
            let data = s.subrange(8, 8 + len);
            let crc = s.subrange(8 + len, 12 + len);
            if crc != be32(crc32_of(typ + data)) {
                ScanOutcome::BadCrc
            } else if typ == iend_tag() {
                ScanOutcome::AllValid
            } else {
                scan_chunks(s.skip(12 + len))
            }
        }
    }
}

/// Whether `s`, from position `pos`, opens with the container signature.
pub open spec fn header_ok_at(s: Seq<u8>, pos: int) -> bool {
    pos + 8 <= s.len() && s.subrange(pos, pos + 8) == png_magic()
}

/// The index just past the last nonzero byte of `s`, minus one; `-1` when
/// every byte is zero.
pub open spec fn last_nonzero(s: Seq<u8>) -> int
    decreases s.len(),
{
    if s.len() == 0 {
        -1
    } else if s.last() != 0 {
        s.len() - 1
    } else {
        last_nonzero(s.drop_last())
    }
}

/// `s` cut just past its last nonzero byte; unchanged when every byte is
/// zero.
pub open spec fn trim_spec(s: Seq<u8>) -> Seq<u8> {
    if last_nonzero(s) == -1 {
        s
    } else {
        s.subrange(0, last_nonzero(s) + 1)
    }
}

/// `last_nonzero` names the greatest index holding a nonzero byte.
pub proof fn lemma_last_nonzero(s: Seq<u8>)
    ensures
        -1 <= last_nonzero(s) < s.len(),
        last_nonzero(s) >= 0 ==> s[last_nonzero(s)] != 0,
        forall|j: int| last_nonzero(s) < j < s.len() ==> s[j] == 0,
    decreases s.len(),
{
    if s.len() > 0 && s.last() == 0 {
        lemma_last_nonzero(s.drop_last());
        assert(s[s.len() - 1] == 0);
        assert(forall|j: int|
            last_nonzero(s) < j < s.len() - 1 ==> #[trigger] s[j] == s.drop_last()[j]);
    }
}

/// Truncate a byte vector just past its last nonzero byte; an all-zero vector
/// stays as it is.
fn trim_vec(v: &mut Vec<u8>)
    ensures
        final(v)@ == trim_spec(old(v)@),
{
    let mut i: usize = v.len();
    while i > 0
        invariant
            i <= v@.len(),
            v@ == old(v)@,
            forall|j: int| i <= j < v@.len() ==> v@[j] == 0,
        decreases i,
    {
        if v[i - 1] != 0 {
            proof {
                lemma_last_nonzero(v@);
                if last_nonzero(v@) > i - 1 {
                    assert(v@[last_nonzero(v@)] == 0);
                }
            }
            v.truncate(i);
            return ;
        }
        i -= 1;
    }
    proof {
        lemma_last_nonzero(v@);
        if last_nonzero(v@) >= 0 {
            assert(v@[last_nonzero(v@)] == 0);
        }
    }
}

/// An in-memory sink for the container bytes an encode produces.
pub struct WriteFile {
    pub data: Vec<u8>,
}

impl WriteFile {
    /// Everything written so far.
    pub open spec fn contents(&self) -> Seq<u8> {
        self.data@
    }

    /// An empty sink.
    pub fn new() -> (r: Self)
        ensures
            r.contents() == Seq::<u8>::empty(),
    {
        WriteFile { data: Vec::new() }
    }

    /// The bytes written so far.
    pub fn as_bytes(&self) -> (r: &Vec<u8>)
        ensures
            r@ == self.contents(),
    {
        &self.data
    }

    /// Append raw bytes; gives the number of bytes written.
    pub fn write(&mut self, buf: &[u8]) -> (r: usize)
        ensures
            final(self).contents() == old(self).contents() + buf@,
            r == buf@.len(),
    {
        append_bytes(&mut self.data, buf);
        buf.len()
    }

    /// Reopen what was written for reading.
    pub fn read(&self) -> (r: ReadFile)
        ensures
            r.wf(),
            r.contents() == self.contents(),
            r.position() == 0,
    {
        let mut copy: Vec<u8> = Vec::new();
        append_bytes(&mut copy, self.data.as_slice());
        proof {
            assert(Seq::<u8>::empty() + self.data@ =~= self.data@);
        }
        ReadFile::new(copy)
    }

    /// Remove the trailing zero bytes, if any byte is nonzero.
    pub fn trim(&mut self) -> (r: Result<(), Error>)
        ensures
            final(self).contents() == trim_spec(old(self).contents()),
            r matches Ok(()),
    {
        trim_vec(&mut self.data);
        Ok(())
    }

    /// Write the fixed 8-byte container signature.
    pub fn write_header(&mut self) -> (r: usize)
        ensures
            final(self).contents() == old(self).contents() + png_magic(),
            r == 8,
    {
        let magic: [u8; 8] = [0x89, 0x50, 0x4e, 0x47, 0x0d, 0x0a, 0x1a, 0x0a];
        proof {
            assert(magic@ =~= png_magic());
        }
        self.write(magic.as_slice())
    }

    /// Write one chunk: data length, type tag, data, checksum of type tag
    /// plus data. Gives the number of bytes written.
    pub fn write_chunk(&mut self, header_type: &[u8], data: &[u8]) -> (r: usize)
        requires
            header_type@.len() == 4,
            data@.len() <= u32::MAX,
            data@.len() + 12 <= usize::MAX,
        ensures
            final(self).contents() == old(self).contents() + chunk_bytes(header_type@, data@),
            r == 12 + data@.len(),
    {
        let len_bytes = u32_to_be_bytes(data.len() as u32);
        self.write(len_bytes.as_slice());
        let mut merged: Vec<u8> = Vec::new();
        append_bytes(&mut merged, header_type);
        append_bytes(&mut merged, data);
        proof {
            assert(Seq::<u8>::empty() + header_type@ + data@ =~= header_type@ + data@);
        }
        self.write(merged.as_slice());
        let crc = Chunk::get_crc(merged.as_slice());
        let r = self.write(crc.as_slice());
        proof {
            assert(old(self).contents() + be32(data@.len() as u32) + (header_type@ + data@) + be32(
                crc32_of(header_type@ + data@),
            ) =~= old(self).contents() + chunk_bytes(header_type@, data@));
        }
        4 + merged.len() + r
    }
}

/// An in-memory source of bytes with a read position: an original file for
/// the encoder, or a container for the decoder.
pub struct ReadFile {
    pub data: Vec<u8>,
    pub pos: usize,
    pub size: u64,
}

impl ReadFile {
    /// All bytes of the source.
    pub open spec fn contents(&self) -> Seq<u8> {
        self.data@
    }

    /// The current read position.
    pub open spec fn position(&self) -> int {
        self.pos as int
    }

    /// The position never passes the end, and `size` is the total length.
    pub open spec fn wf(&self) -> bool {
        &&& self.position() <= self.contents().len()
        &&& self.size == self.contents().len()
    }

    /// A source over the given bytes, positioned at the start.
    pub fn new(data: Vec<u8>) -> (r: Self)
        ensures
            r.wf(),
            r.contents() == data@,
            r.position() == 0,
    {
        let size = data.len() as u64;
        ReadFile { data, pos: 0, size }
    }

    /// Read up to `n` bytes, advancing the position by what was read. Short
    /// only when the source has fewer than `n` bytes left.
    pub fn read(&mut self, n: usize) -> (r: Vec<u8>)
        requires
            old(self).wf(),
        ensures
            final(self).wf(),
            final(self).contents() == old(self).contents(),
            final(self).size == old(self).size,
            r@.len() == if n <= old(self).contents().len() - old(self).position() {
                n as int
            } else {
                old(self).contents().len() - old(self).position()
            },
            r@ == old(self).contents().subrange(
                old(self).position(),
                old(self).position() + r@.len(),
            ),
            final(self).position() == old(self).position() + r@.len(),
    {
        let avail = self.data.len() - self.pos;
        let take = if n < avail {
            n
        } else {
            avail
        };
        let mut r: Vec<u8> = Vec::new();
        let mut i: usize = 0;
        while i < take
            invariant
                i <= take,
                self.data@.len() <= usize::MAX,
                self.pos + take <= self.data@.len(),
                r@ == self.data@.subrange(self.pos as int, self.pos + i),
            decreases take - i,
        {
            r.push(self.data[self.pos + i]);
            i += 1;
            proof {
                assert(self.data@.subrange(self.pos as int, self.pos + i - 1) + seq![
                    self.data@[self.pos + i - 1],
                ] =~= self.data@.subrange(self.pos as int, self.pos + i));
            }
        }
        self.pos = self.pos + take;
        r
    }

    /// Move the read position back to the start.
    pub fn reset(&mut self) -> (r: Result<u64, Error>)
        ensures
            final(self).contents() == old(self).contents(),
            final(self).size == old(self).size,
            final(self).position() == 0,
            old(self).wf() ==> final(self).wf(),
            r matches Ok(p) && p == 0,
    {
        self.pos = 0;
        Ok(0)
    }

    /// Remove the trailing zero bytes, if any byte is nonzero, and move the
    /// read position back to the start.
    pub fn trim(&mut self) -> (r: Result<(), Error>)
        requires
            old(self).wf(),
        ensures
            final(self).wf(),
            final(self).contents() == trim_spec(old(self).contents()),
            final(self).position() == 0,
            r matches Ok(()),
    {
        trim_vec(&mut self.data);
        self.pos = 0;
        self.size = self.data.len() as u64;
        Ok(())
    }

    /// Read the 8-byte signature; an `InvalidHeader` error when it is absent
    /// or mismatched.
    pub fn read_header(&mut self) -> (r: Result<(), Error>)
        requires
            old(self).wf(),
        ensures
            final(self).wf(),
            final(self).contents() == old(self).contents(),
            final(self).size == old(self).size,
            (r matches Ok(())) <==> header_ok_at(old(self).contents(), old(self).position()),
            r matches Err(e) ==> e is InvalidHeader,
            r matches Ok(()) ==> final(self).position() == old(self).position() + 8,
    {
        let buf = self.read(8);
        if buf.len() < 8 {
            return Err(Error::InvalidHeader(String::new()));
        }
        let magic: [u8; 8] = [0x89, 0x50, 0x4e, 0x47, 0x0d, 0x0a, 0x1a, 0x0a];
        proof {
            assert(magic@ =~= png_magic());
        }
        if bytes_eq(buf.as_slice(), magic.as_slice()) {
            Ok(())
        } else {
            Err(Error::InvalidHeader(String::new()))
        }
    }

    /// Read the next chunk; `None` at clean end of input.
    pub fn read_chunk(&mut self) -> (r: Result<Option<Chunk>, Error>)
        requires
            old(self).wf(),
        ensures
            final(self).wf(),
            final(self).contents() == old(self).contents(),
            final(self).size == old(self).size,
            ({
                let s = old(self).contents();
                let pos = old(self).position();
                if pos == s.len() {
                    r matches Ok(None) && final(self).position() == pos
                } else if !chunk_fits(s, pos) {
                    r matches Err(e) && e is ReadChunk
                } else {
                    r matches Ok(Some(c)) && c.wf() && c.typ() == s.subrange(pos + 4, pos + 8)
                        && c.payload() == s.subrange(pos + 8, pos + 8 + spec_chunk_len(s, pos))
                        && c.stored_crc() == s.subrange(
                        pos + 8 + spec_chunk_len(s, pos),
                        chunk_end(s, pos),
                    ) && final(self).position() == chunk_end(s, pos)
                }
            }),
    {
        Chunk::new(self)
    }

    /// Validate the whole container from the current position: the signature,
    /// then every chunk's checksum, up to the end marker.
    #[verifier::rlimit(60)]
    pub fn verify_png(&mut self) -> (r: Result<(), Error>)
        requires
            old(self).wf(),
        ensures
            final(self).wf(),
            final(self).contents() == old(self).contents(),
            final(self).size == old(self).size,
            ({
                let s = old(self).contents();
                let pos = old(self).position();
                &&& (r matches Ok(())) <==> (header_ok_at(s, pos) && scan_chunks(
                    s.skip(pos + 8),
                ) is AllValid)
                &&& (r matches Err(e) ==> (if !header_ok_at(s, pos) {
                    e is InvalidHeader
                } else if scan_chunks(s.skip(pos + 8)) is BadCrc {
                    e is InvalidCRC
                } else {
                    e is ReadChunk
                }))
            }),
    {
        let ghost s = self.contents();
        let ghost pos0 = self.position();
        match self.read_header() {
            Ok(()) => (),
            Err(e) => {
                return Err(e);
            },
        }
        loop
            invariant
                self.wf(),
                self.contents() == s,
                s == old(self).contents(),
                pos0 == old(self).position(),
                self.size == old(self).size,
                header_ok_at(s, pos0),
                pos0 + 8 <= self.position() <= s.len(),
                scan_chunks(s.skip(pos0 + 8)) == scan_chunks(s.skip(self.position())),
            decreases s.len() - self.position(),
        {
            let ghost pos = self.position();
            let kr = self.read_chunk();
            match kr {
                Err(_) => {
                    proof {
                        lemma_scan_truncated(s, pos);
                    }
                    return Err(Error::ReadChunk(String::new()));
                },
                Ok(None) => {
                    proof {
                        assert(s.skip(pos).len() == 0);
                    }
                    return Err(Error::ReadChunk(String::new()));
                },
                Ok(Some(k)) => {
                    proof {
                        lemma_scan_unfold(s, pos);
                    }
                    if !k.verify_crc() {
                        return Err(Error::InvalidCRC(String::new()));
                    }
                    let tag: [u8; 4] = [0x49, 0x45, 0x4e, 0x44];
                    proof {
                        assert(tag@ =~= iend_tag());
                    }
                    if bytes_eq(k.get_header(), tag.as_slice()) {
                        return Ok(());
                    }
                },
            }
        }
    }
}

/// When no whole chunk lies at `pos`, a scan from `pos` reports truncation.
proof fn lemma_scan_truncated(s: Seq<u8>, pos: int)
    requires
        0 <= pos <= s.len(),
        !chunk_fits(s, pos),
    ensures
        scan_chunks(s.skip(pos)) is Truncated,
{
    let rest = s.skip(pos);
    if pos + 12 <= s.len() {
        assert(rest.subrange(0, 4) =~= s.subrange(pos, pos + 4));
    }
}

/// Unfold one step of the scan at `pos`: the chunk there decides, and the
/// scan continues past it.
proof fn lemma_scan_unfold(s: Seq<u8>, pos: int)
    requires
        0 <= pos,
        chunk_fits(s, pos),
    ensures
        ({
            let len = spec_chunk_len(s, pos);
            let typ = s.subrange(pos + 4, pos + 8);
            let data = s.subrange(pos + 8, pos + 8 + len);
            let crc = s.subrange(pos + 8 + len, chunk_end(s, pos));
            scan_chunks(s.skip(pos)) == (if crc != be32(crc32_of(typ + data)) {
                ScanOutcome::BadCrc
            } else if typ == iend_tag() {
                ScanOutcome::AllValid
            } else {
                scan_chunks(s.skip(chunk_end(s, pos)))
            })
        }),
{
    let rest = s.skip(pos);
    let len = spec_chunk_len(s, pos);
    assert(rest.subrange(0, 4) =~= s.subrange(pos, pos + 4));
    assert(rest.subrange(4, 8) =~= s.subrange(pos + 4, pos + 8));
    assert(rest.subrange(8, 8 + len) =~= s.subrange(pos + 8, pos + 8 + len));
    assert(rest.subrange(8 + len, 12 + len) =~= s.subrange(pos + 8 + len, chunk_end(s, pos)));
    assert(rest.skip(12 + len) =~= s.skip(chunk_end(s, pos)));
}

/// Corrupting a chunk's type or data in a way that changes its checksum is
/// always caught: the scan stops with a checksum mismatch, never a silent
/// pass, whatever follows the chunk.
pub proof fn lemma_tamper_detected(
    typ: Seq<u8>,
    data: Seq<u8>,
    typ2: Seq<u8>,
    data2: Seq<u8>,
    rest: Seq<u8>,
)
    requires
        typ.len() == 4,
        typ2.len() == 4,
        data2.len() == data.len(),
        data.len() <= u32::MAX,
        crc32_of(typ2 + data2) != crc32_of(typ + data),
    ensures
        ({
            let tampered = be32(data.len() as u32) + typ2 + data2 + be32(crc32_of(typ + data))
                + rest;
            scan_chunks(tampered) is BadCrc
        }),
{
    let stored = be32(crc32_of(typ + data));
    let tampered = be32(data.len() as u32) + typ2 + data2 + stored + rest;
    let len = data.len() as int;
    crate::bytes::lemma_be32_inverse(data.len() as u32);
    assert(tampered.subrange(0, 4) =~= be32(data.len() as u32));
    assert(tampered.len() == 12 + len + rest.len());
    assert(tampered.subrange(4, 8) =~= typ2);
    assert(tampered.subrange(8, 8 + len) =~= data2);
    assert(tampered.subrange(8 + len, 12 + len) =~= stored);
    if stored == be32(crc32_of(typ2 + data2)) {
        crate::bytes::lemma_be32_inverse(crc32_of(typ + data));
        crate::bytes::lemma_be32_inverse(crc32_of(typ2 + data2));
    }
}

} // verus!
