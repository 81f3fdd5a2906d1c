//! Byte-string building and parsing helpers shared by the record codecs.
//!
//! All multi-byte integers are little-endian; scalars and group elements use
//! their canonical 32-byte encodings.

use vstd::bytes::{spec_u32_from_le_bytes, spec_u32_to_le_bytes};
use vstd::prelude::*;

verus! {

/// The 32-byte chunk at position `j` of a run of chunks starting at
/// `base`.
pub open spec fn chunk32(bytes: Seq<u8>, base: int, j: int) -> Seq<u8> {
    bytes.subrange(base + 32 * j, base + 32 * j + 32)
}

/// The `w`-byte chunk at position `j` of a run of chunks starting at
/// `base`.
pub open spec fn chunk_at(bytes: Seq<u8>, base: int, w: int, j: int) -> Seq<u8> {
    bytes.subrange(base + w * j, base + w * j + w)
}

/// Append the bytes of a slice to a vector.
pub fn extend_bytes(v: &mut Vec<u8>, s: &[u8])
    ensures
        final(v)@ == old(v)@ + s@,
{
    let n: usize = s.len();
    let ghost base = v@;
    let mut i: usize = 0;
    while i < n
        invariant
            i <= n,
            n == s@.len(),
            v@ == base + s@.subrange(0, i as int),
        decreases n - i,
    {
        v.push(s[i]);
        proof {
            assert(s@.subrange(0, i + 1) =~= s@.subrange(0, i as int).push(s@[i as int]));
        }
        i += 1;
    }
    proof {
        assert(s@.subrange(0, n as int) =~= s@);
    }
}

/// Append the 4-byte little-endian encoding of a `u32`.
pub fn extend_u32(v: &mut Vec<u8>, x: u32)
    ensures
        final(v)@ == old(v)@ + spec_u32_to_le_bytes(x),
{
    let bytes = vstd::bytes::u32_to_le_bytes(x);
    extend_bytes(v, bytes.as_slice());
}

/// Read the `u32` encoded little-endian at `offset`.
pub fn read_u32_at(bytes: &[u8], offset: usize) -> (r: u32)
    requires
        offset + 4 <= bytes@.len(),
    ensures
        r == spec_u32_from_le_bytes(bytes@.subrange(offset as int, offset + 4)),
{
    let blen: usize = bytes.len();
    let b = vstd::slice::slice_subrange(bytes, offset, offset + 4);
    vstd::bytes::u32_from_le_bytes(b)
}

/// Copy the 32 bytes at `offset` into an array.
pub fn read_bytes32_at(bytes: &[u8], offset: usize) -> (r: [u8; 32])
    requires
        offset + 32 <= bytes@.len(),
    ensures
        r@ == bytes@.subrange(offset as int, offset + 32),
{
    let blen: usize = bytes.len();
    let mut r = [0u8; 32];
    let mut i: usize = 0;
    while i < 32
        invariant
            i <= 32,
            offset + 32 <= bytes@.len(),
            bytes@.len() == blen,
            r@.len() == 32,
            forall|j: int| 0 <= j < i ==> r@[j] == bytes@[offset + j],
        decreases 32 - i,
    {
        r[i] = bytes[offset + i];
        i += 1;
    }
    proof {
        assert(r@ =~= bytes@.subrange(offset as int, offset + 32));
    }
    r
}

/// Copy the 16 bytes at `offset` into an array.
pub fn read_bytes16_at(bytes: &[u8], offset: usize) -> (r: [u8; 16])
    requires
        offset + 16 <= bytes@.len(),
    ensures
        r@ == bytes@.subrange(offset as int, offset + 16),
{
    let blen: usize = bytes.len();
    let mut r = [0u8; 16];
    let mut i: usize = 0;
    while i < 16
        invariant
            i <= 16,
            offset + 16 <= bytes@.len(),
            bytes@.len() == blen,
            r@.len() == 16,
            forall|j: int| 0 <= j < i ==> r@[j] == bytes@[offset + j],
        decreases 16 - i,
    {
        r[i] = bytes[offset + i];
        i += 1;
    }
    proof {
        assert(r@ =~= bytes@.subrange(offset as int, offset + 16));
    }
    r
}

/// Write the bytes of `src` into `dst` starting at `offset`; the rest of
/// `dst` is unchanged.
pub fn write_bytes<const N: usize>(dst: &mut [u8; N], offset: usize, src: &[u8])
    requires
        offset + src@.len() <= N,
    ensures
        forall|j: int|
            0 <= j < N ==> final(dst)@[j] == (if offset <= j < offset + src@.len() {
                src@[j - offset]
            } else {
                old(dst)@[j]
            }),
{
    let n: usize = src.len();
    let mut i: usize = 0;
    while i < n
        invariant
            i <= n,
            n == src@.len(),
            offset + n <= N,
            dst@.len() == N,
            forall|j: int|
                0 <= j < N ==> dst@[j] == (if offset <= j < offset + i {
                    src@[j - offset]
                } else {
                    old(dst)@[j]
                }),
        decreases n - i,
    {
        dst[offset + i] = src[i];
        i += 1;
    }
}

} // verus!
