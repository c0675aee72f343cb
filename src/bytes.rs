//! Little-endian integer layouts used throughout the method-body format.

use vstd::prelude::*;

verus! {

/// The two bytes of `v`, least significant first.
pub open spec fn le16(v: u16) -> Seq<u8> {
    seq![(v & 0xff) as u8, (v >> 8) as u8]
}

/// The four bytes of `v`, least significant first.
pub open spec fn le32(v: u32) -> Seq<u8> {
    seq![(v & 0xff) as u8, ((v >> 8) & 0xff) as u8, ((v >> 16) & 0xff) as u8, (v >> 24) as u8]
}

/// The eight bytes of `v`, least significant first.
pub open spec fn le64(v: u64) -> Seq<u8> {
    le32((v & 0xffff_ffff) as u32) + le32((v >> 32) as u32)
}

pub fn push_u16(out: &mut Vec<u8>, v: u16)
    ensures
        final(out)@ == old(out)@ + le16(v),
{
    out.push((v & 0xff) as u8);
    out.push((v >> 8) as u8);
    assert(final(out)@ =~= old(out)@ + le16(v));
}

pub fn push_u32(out: &mut Vec<u8>, v: u32)
    ensures
        final(out)@ == old(out)@ + le32(v),
{
    out.push((v & 0xff) as u8);
    out.push(((v >> 8) & 0xff) as u8);
    out.push(((v >> 16) & 0xff) as u8);
    out.push((v >> 24) as u8);
    assert(final(out)@ =~= old(out)@ + le32(v));
}

pub fn push_u64(out: &mut Vec<u8>, v: u64)
    ensures
        final(out)@ == old(out)@ + le64(v),
{
    push_u32(out, (v & 0xffff_ffff) as u32);
    push_u32(out, (v >> 32) as u32);
    assert(final(out)@ =~= old(out)@ + le64(v));
}

pub fn read_u16(b: &[u8], pos: usize) -> (r: u16)
    requires
        pos + 2 <= b.len(),
    ensures
        le16(r) == b@.subrange(pos as int, pos + 2),
{
    let b0 = b[pos];
    let b1 = b[pos + 1];
    let r: u16 = (b0 as u16) | ((b1 as u16) << 8);
    assert((r & 0xff) as u8 == b0 && (r >> 8) as u8 == b1) by (bit_vector)
        requires
            r == (b0 as u16) | ((b1 as u16) << 8),
    ;
    assert(le16(r) =~= b@.subrange(pos as int, pos + 2));
    r
}

pub fn read_u32(b: &[u8], pos: usize) -> (r: u32)
    requires
        pos + 4 <= b.len(),
    ensures
        le32(r) == b@.subrange(pos as int, pos + 4),
{
    let b0 = b[pos];
    let b1 = b[pos + 1];
    let b2 = b[pos + 2];
    let b3 = b[pos + 3];
    let r: u32 = (b0 as u32) | ((b1 as u32) << 8) | ((b2 as u32) << 16) | ((b3 as u32) << 24);
    assert((r & 0xff) as u8 == b0 && ((r >> 8) & 0xff) as u8 == b1 && ((r >> 16) & 0xff) as u8
        == b2 && (r >> 24) as u8 == b3) by (bit_vector)
        requires
            r == (b0 as u32) | ((b1 as u32) << 8) | ((b2 as u32) << 16) | ((b3 as u32) << 24),
    ;
    assert(le32(r) =~= b@.subrange(pos as int, pos + 4));
    r
}

pub fn read_u64(b: &[u8], pos: usize) -> (r: u64)
    requires
        pos + 8 <= b.len(),
    ensures
        le64(r) == b@.subrange(pos as int, pos + 8),
{
    let lo = read_u32(b, pos);
    let hi = read_u32(b, pos + 4);
    let r: u64 = (lo as u64) | ((hi as u64) << 32);
    assert((r & 0xffff_ffff) as u32 == lo && (r >> 32) as u32 == hi) by (bit_vector)
        requires
            r == (lo as u64) | ((hi as u64) << 32),
    ;
    assert(le64(r) =~= b@.subrange(pos as int, pos + 8));
    r
}

/// A layout determines the value it was written from.
pub proof fn lemma_le16_injective(a: u16, b: u16)
    requires
        le16(a) == le16(b),
    ensures
        a == b,
{
    assert(le16(a)[0] == le16(b)[0] && le16(a)[1] == le16(b)[1]);
    assert(((a & 0xff) as u8 == (b & 0xff) as u8 && (a >> 8) as u8 == (b >> 8) as u8) ==> a == b)
        by (bit_vector);
}

pub proof fn lemma_le32_injective(a: u32, b: u32)
    requires
        le32(a) == le32(b),
    ensures
        a == b,
{
    assert(le32(a)[0] == le32(b)[0] && le32(a)[1] == le32(b)[1] && le32(a)[2] == le32(b)[2]
        && le32(a)[3] == le32(b)[3]);
    assert(((a & 0xff) as u8 == (b & 0xff) as u8 && ((a >> 8) & 0xff) as u8 == ((b >> 8)
        & 0xff) as u8 && ((a >> 16) & 0xff) as u8 == ((b >> 16) & 0xff) as u8 && (a >> 24) as u8
        == (b >> 24) as u8) ==> a == b) by (bit_vector);
}

/// The low three bytes of a value below 2^24 add up to it.
pub proof fn lemma_three_bytes_value(v: u32)
    requires
        v < 0x100_0000,
    ensures
        le32(v)[0] + 256 * le32(v)[1] + 65536 * le32(v)[2] == v,
{
    let (b1, b2, b3) = ((v & 0xff) as u8, ((v >> 8) & 0xff) as u8, ((v >> 16) & 0xff) as u8);
    assert(b1 as u32 + 256 * (b2 as u32) + 65536 * (b3 as u32) == v) by (bit_vector)
        requires
            v < 0x100_0000,
            b1 == (v & 0xff) as u8,
            b2 == ((v >> 8) & 0xff) as u8,
            b3 == ((v >> 16) & 0xff) as u8,
    ;
}

} // verus!
