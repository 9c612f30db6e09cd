//! Little-endian integers as they stand in the image.
//!
//! The byte order itself is left to the `byteorder` crate; this module says
//! what its results are and proves that decoding undoes encoding.

use byteorder::{ByteOrder, LittleEndian};
use vstd::prelude::*;

verus! {

/// The number that two bytes hold, least significant byte first.
pub open spec fn u16_from_le(b: Seq<u8>) -> u16
    recommends
        b.len() >= 2,
{
    (b[0] as int + 0x100 * (b[1] as int)) as u16
}

/// The number that four bytes hold, least significant byte first.
pub open spec fn u32_from_le(b: Seq<u8>) -> u32
    recommends
        b.len() >= 4,
{
    (b[0] as int + 0x100 * (b[1] as int) + 0x1_0000 * (b[2] as int) + 0x100_0000 * (b[3] as int)) as u32
}

/// The number that eight bytes hold, least significant byte first.
pub open spec fn u64_from_le(b: Seq<u8>) -> u64
    recommends
        b.len() >= 8,
{
    (u32_from_le(b) as int + 0x1_0000_0000 * (u32_from_le(b.subrange(4, 8)) as int)) as u64
}

/// The 16-bit number that stands at offset `off` of `b`.
pub open spec fn u16_at(b: Seq<u8>, off: int) -> u16 {
    u16_from_le(b.subrange(off, off + 2))
}

/// The 32-bit number that stands at offset `off` of `b`.
pub open spec fn u32_at(b: Seq<u8>, off: int) -> u32 {
    u32_from_le(b.subrange(off, off + 4))
}

/// The 64-bit number that stands at offset `off` of `b`.
pub open spec fn u64_at(b: Seq<u8>, off: int) -> u64 {
    u64_from_le(b.subrange(off, off + 8))
}

/// The two bytes of a number, least significant byte first.
pub open spec fn u16_to_le(x: u16) -> Seq<u8> {
    seq![(x % 0x100) as u8, (x / 0x100) as u8]
}

/// The four bytes of a number, least significant byte first.
pub open spec fn u32_to_le(x: u32) -> Seq<u8> {
    seq![
        (x % 0x100) as u8,
        ((x / 0x100) % 0x100) as u8,
        ((x / 0x100 / 0x100) % 0x100) as u8,
        (x / 0x100 / 0x100 / 0x100) as u8,
    ]
}

/// The eight bytes of a number, least significant byte first.
pub open spec fn u64_to_le(x: u64) -> Seq<u8> {
    u32_to_le((x % 0x1_0000_0000) as u32) + u32_to_le((x / 0x1_0000_0000) as u32)
}

/// Decoding undoes encoding, for each width.
pub proof fn lemma_le_round_trip(a: u16, b: u32, c: u64)
    ensures
        u16_to_le(a).len() == 2,
        u32_to_le(b).len() == 4,
        u64_to_le(c).len() == 8,
        u16_from_le(u16_to_le(a)) == a,
        u32_from_le(u32_to_le(b)) == b,
        u64_from_le(u64_to_le(c)) == c,
{
    let lo: u32 = (c % 0x1_0000_0000) as u32;
    let hi: u32 = (c / 0x1_0000_0000) as u32;
    lemma_u32_round_trip(lo);
    lemma_u32_round_trip(hi);
    lemma_u32_round_trip(b);
    let s = u64_to_le(c);
    assert(s.subrange(4, 8) =~= u32_to_le(hi));
    assert(s[0] == u32_to_le(lo)[0]);
    assert(s[1] == u32_to_le(lo)[1]);
    assert(s[2] == u32_to_le(lo)[2]);
    assert(s[3] == u32_to_le(lo)[3]);
    assert(u32_from_le(s) == lo);
}

proof fn lemma_u32_round_trip(b: u32)
    ensures
        u32_to_le(b).len() == 4,
        u32_from_le(u32_to_le(b)) == b,
{
    let q1: int = b as int / 0x100;
    let q2: int = q1 / 0x100;
    let q3: int = q2 / 0x100;
    assert(b as int == 0x100 * q1 + b as int % 0x100);
    assert(q1 == 0x100 * q2 + q1 % 0x100);
    assert(q2 == 0x100 * q3 + q2 % 0x100);
    assert(0 <= q3 < 0x100);
    let s = u32_to_le(b);
    assert(s[0] as int == b as int % 0x100);
    assert(s[1] as int == q1 % 0x100);
    assert(s[2] as int == q2 % 0x100);
    assert(s[3] as int == q3);
}

/// `byteorder::LittleEndian::read_u16`: the number that the first two bytes
/// of the slice hold, least significant byte first.  The call panics on a
/// shorter slice, which the precondition leaves out.
#[verifier::external_body]
pub(crate) fn read_u16_le(bytes: &[u8]) -> (r: u16)
    requires
        bytes@.len() >= 2,
    ensures
        r == u16_from_le(bytes@),
{
    LittleEndian::read_u16(bytes)
}

/// `byteorder::LittleEndian::read_u32`: the number that the first four bytes
/// of the slice hold, least significant byte first.  The call panics on a
/// shorter slice, which the precondition leaves out.
#[verifier::external_body]
pub(crate) fn read_u32_le(bytes: &[u8]) -> (r: u32)
    requires
        bytes@.len() >= 4,
    ensures
        r == u32_from_le(bytes@),
{
    LittleEndian::read_u32(bytes)
}

/// `byteorder::LittleEndian::read_u64`: the number that the first eight bytes
/// of the slice hold, least significant byte first.  The call panics on a
/// shorter slice, which the precondition leaves out.
#[verifier::external_body]
pub(crate) fn read_u64_le(bytes: &[u8]) -> (r: u64)
    requires
        bytes@.len() >= 8,
    ensures
        r == u64_from_le(bytes@),
{
    LittleEndian::read_u64(bytes)
}

/// `byteorder::LittleEndian::write_u16`: the two bytes of the number, least
/// significant byte first, written into a buffer of that length.
#[verifier::external_body]
pub(crate) fn write_u16_le(n: u16) -> (r: Vec<u8>)
    ensures
        r@ == u16_to_le(n),
{
    let mut buf = vec![0u8; 2];
    LittleEndian::write_u16(&mut buf, n);
    buf
}

/// `byteorder::LittleEndian::write_u32`: the four bytes of the number, least
/// significant byte first, written into a buffer of that length.
#[verifier::external_body]
pub(crate) fn write_u32_le(n: u32) -> (r: Vec<u8>)
    ensures
        r@ == u32_to_le(n),
{
    let mut buf = vec![0u8; 4];
    LittleEndian::write_u32(&mut buf, n);
    buf
}

/// `byteorder::LittleEndian::write_u64`: the eight bytes of the number, least
/// significant byte first, written into a buffer of that length.
#[verifier::external_body]
pub(crate) fn write_u64_le(n: u64) -> (r: Vec<u8>)
    ensures
        r@ == u64_to_le(n),
{
    let mut buf = vec![0u8; 8];
    LittleEndian::write_u64(&mut buf, n);
    buf
}

/// Appends `bytes` to `out`.
pub fn append_bytes(out: &mut Vec<u8>, bytes: &[u8])
    ensures
        final(out)@ == old(out)@ + bytes@,
{
    let mut i: usize = 0;
    while i < bytes.len()
        invariant
            i <= bytes@.len(),
            out@ == old(out)@ + bytes@.subrange(0, i as int),
        decreases bytes@.len() - i,
    {
        out.push(bytes[i]);
        assert(out@ =~= old(out)@ + bytes@.subrange(0, i + 1));
        i = i + 1;
    }
    assert(bytes@.subrange(0, bytes@.len() as int) =~= bytes@);
}

/// The 16-bit number at offset `off` of a block.
pub fn get_u16(block: &[u8], off: usize) -> (r: u16)
    requires
        off + 2 <= block@.len(),
    ensures
        r == u16_at(block@, off as int),
{
    let _n: usize = block.len();
    read_u16_le(vstd::slice::slice_subrange(block, off, off + 2))
}

/// The 32-bit number at offset `off` of a block.
pub fn get_u32(block: &[u8], off: usize) -> (r: u32)
    requires
        off + 4 <= block@.len(),
    ensures
        r == u32_at(block@, off as int),
{
    let _n: usize = block.len();
    read_u32_le(vstd::slice::slice_subrange(block, off, off + 4))
}

/// The 64-bit number at offset `off` of a block.
pub fn get_u64(block: &[u8], off: usize) -> (r: u64)
    requires
        off + 8 <= block@.len(),
    ensures
        r == u64_at(block@, off as int),
{
    let _n: usize = block.len();
    read_u64_le(vstd::slice::slice_subrange(block, off, off + 8))
}

} // verus!
