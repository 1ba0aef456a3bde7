//! Big-endian 32-bit integers, as the container format stores lengths and
//! checksums.

use vstd::prelude::*;

verus! {

/// The four big-endian bytes of `n`.
pub open spec fn be32(n: u32) -> Seq<u8> {
    seq![
        (n / 0x1000000) as u8,
        ((n / 0x10000) % 0x100) as u8,
        ((n / 0x100) % 0x100) as u8,
        (n % 0x100) as u8,
    ]
}

/// The value of four bytes read big-endian.
pub open spec fn u32_of_be(s: Seq<u8>) -> u32
    recommends
        s.len() == 4,
{
    (s[0] * 0x1000000 + s[1] * 0x10000 + s[2] * 0x100 + s[3]) as u32
}

/// Writing a value big-endian and reading it back is the identity.
pub proof fn lemma_be32_inverse(n: u32)
    ensures
        u32_of_be(be32(n)) == n,
{
    assert((n / 0x1000000) * 0x1000000 + ((n / 0x10000) % 0x100) * 0x10000 + ((n / 0x100) % 0x100)
        * 0x100 + n % 0x100 == n) by (nonlinear_arith);
}

/// Split a `u32` into its four big-endian bytes.
pub fn u32_to_be_bytes(n: u32) -> (r: [u8; 4])
    ensures
        r@ == be32(n),
{
    let r = [(n / 0x1000000) as u8, ((n / 0x10000) % 0x100) as u8, ((n / 0x100) % 0x100) as u8, (n
        % 0x100) as u8];
    assert(r@ =~= be32(n));
    r
}

/// Append a slice to a byte vector.
pub fn append_bytes(dst: &mut Vec<u8>, src: &[u8])
    ensures
        final(dst)@ == old(dst)@ + src@,
{
    let mut i: usize = 0;
    while i < src.len()
        invariant
            i <= src@.len(),
            dst@ == old(dst)@ + src@.subrange(0, i as int),
        decreases src@.len() - i,
    {
        dst.push(src[i]);
        i += 1;
        proof {
            assert(old(dst)@ + src@.subrange(0, i - 1) + seq![src@[i - 1]] =~= old(dst)@
                + src@.subrange(0, i as int));
        }
    }
    proof {
        assert(src@.subrange(0, src@.len() as int) =~= src@);
    }
}

/// Append `src[start..start + count]` to a byte vector.
pub fn append_range(dst: &mut Vec<u8>, src: &Vec<u8>, start: usize, count: usize)
    requires
        start + count <= src@.len(),
    ensures
        final(dst)@ == old(dst)@ + src@.subrange(start as int, start + count),
{
    let total = src.len();
    let mut i: usize = 0;
    while i < count
        invariant
            i <= count,
            start + count <= src@.len(),
            src@.len() == total,
            dst@ == old(dst)@ + src@.subrange(start as int, start + i),
        decreases count - i,
    {
        dst.push(src[start + i]);
        i += 1;
        proof {
            assert(old(dst)@ + src@.subrange(start as int, start + i - 1) + seq![
                src@[start + i - 1],
            ] =~= old(dst)@ + src@.subrange(start as int, start + i));
        }
    }
}

/// Byte-for-byte equality of two slices.
pub fn bytes_eq(a: &[u8], b: &[u8]) -> (r: bool)
    ensures
        r == (a@ == b@),
{
    if a.len() != b.len() {
        proof {
            assert(a@.len() != b@.len());
        }
        return false;
    }
    let mut i: usize = 0;
    while i < a.len()
        invariant
            i <= a@.len(),
            a@.len() == b@.len(),
            forall|j: int| 0 <= j < i ==> a@[j] == b@[j],
        decreases a@.len() - i,
    {
        if a[i] != b[i] {
            return false;
        }
        i += 1;
    }
    proof {
        assert(a@ =~= b@);
    }
    true
}

/// Read a big-endian `u32` from the first four bytes of a slice.
pub fn read_be_u32(input: &[u8]) -> (r: u32)
    requires
        input@.len() >= 4,
    ensures
        r == u32_of_be(input@.subrange(0, 4)),
{
    let b0 = input[0] as u32;
    let b1 = input[1] as u32;
    let b2 = input[2] as u32;
    let b3 = input[3] as u32;
    b0 * 0x1000000 + b1 * 0x10000 + b2 * 0x100 + b3
}

} // verus!
