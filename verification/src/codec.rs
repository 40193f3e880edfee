//! Little-endian encoding of the fixed-width integers that make up the
//! on-disk records. Every persistent structure stores its numeric fields as
//! 32-bit little-endian values at documented byte offsets.
use vstd::prelude::*;

verus! {

/// The 32-bit value laid down by four bytes in little-endian order.
pub open spec fn le32(b0: u8, b1: u8, b2: u8, b3: u8) -> u32 {
    (b0 as u32) | ((b1 as u32) << 8) | ((b2 as u32) << 16) | ((b3 as u32) << 24)
}

/// The 32-bit little-endian value stored at byte offset `off` of `bytes`.
pub open spec fn le32_at(bytes: Seq<u8>, off: int) -> u32 {
    le32(bytes[off], bytes[off + 1], bytes[off + 2], bytes[off + 3])
}

/// Byte `k` (0 = least significant) of the little-endian encoding of `v`.
pub open spec fn le_byte(v: u32, k: int) -> u8 {
    if k == 0 {
        v as u8
    } else if k == 1 {
        (v >> 8) as u8
    } else if k == 2 {
        (v >> 16) as u8
    } else {
        (v >> 24) as u8
    }
}

/// Reassembling the four little-endian bytes of a value gives the value back.
pub proof fn lemma_le32_roundtrip(v: u32)
    ensures
        le32(le_byte(v, 0), le_byte(v, 1), le_byte(v, 2), le_byte(v, 3)) == v,
{
    assert((v as u8 as u32) | (((v >> 8) as u8 as u32) << 8) | (((v >> 16) as u8 as u32) << 16) | ((
    (v >> 24) as u8 as u32) << 24) == v) by (bit_vector);
}

/// Reads the 32-bit little-endian value at byte offset `off` of `buf`.
pub fn get_u32(buf: &Vec<u8>, off: usize) -> (r: u32)
    requires
        off + 4 <= buf@.len(),
    ensures
        r == le32_at(buf@, off as int),
{
    let n = buf.len();
    let b0 = buf[off];
    let b1 = buf[off + 1];
    let b2 = buf[off + 2];
    let b3 = buf[off + 3];
    (b0 as u32) | ((b1 as u32) << 8) | ((b2 as u32) << 16) | ((b3 as u32) << 24)
}

/// Overwrites the four bytes at offset `off` of `buf` with the little-endian
/// encoding of `v`; no other byte changes.
pub fn put_u32(buf: &mut Vec<u8>, off: usize, v: u32)
    requires
        off + 4 <= old(buf)@.len(),
    ensures
        final(buf)@.len() == old(buf)@.len(),
        forall|i: int|
            0 <= i < old(buf)@.len() && !(off <= i < off + 4) ==> final(buf)@[i] == old(buf)@[i],
        forall|k: int| 0 <= k < 4 ==> final(buf)@[off + k] == le_byte(v, k),
        le32_at(final(buf)@, off as int) == v,
{
    let n = buf.len();
    buf.set(off, v as u8);
    buf.set(off + 1, (v >> 8) as u8);
    buf.set(off + 2, (v >> 16) as u8);
    buf.set(off + 3, (v >> 24) as u8);
    proof {
        lemma_le32_roundtrip(v);
    }
}

} // verus!
