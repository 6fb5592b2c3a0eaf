//! The little-endian scalars of the fastText binary format, read through
//! `byteorder`, and the layout of a model file.
use byteorder::{ByteOrder, LittleEndian};
use vstd::prelude::*;

verus! {

/// The four bytes at the front of `b`, little-endian, as an unsigned integer.
pub open spec fn le_u32(b: Seq<u8>) -> u32 {
    (b[0] as int + 0x100 * b[1] as int + 0x1_0000 * b[2] as int + 0x100_0000 * b[3] as int) as u32
}

/// The eight bytes at the front of `b`, little-endian, as an unsigned integer.
pub open spec fn le_u64(b: Seq<u8>) -> u64 {
    (le_u32(b) as int + 0x1_0000_0000 * le_u32(b.subrange(4, 8)) as int) as u64
}

/// The four bytes at the front of `b`, little-endian two's complement.
pub open spec fn le_i32(b: Seq<u8>) -> i32 {
    let u = le_u32(b) as int;
    if u < 0x8000_0000 {
        u as i32
    } else {
        (u - 0x1_0000_0000) as i32
    }
}

/// The eight bytes at the front of `b`, little-endian two's complement.
pub open spec fn le_i64(b: Seq<u8>) -> i64 {
    let u = le_u64(b) as int;
    if u < 0x8000_0000_0000_0000 {
        u as i64
    } else {
        (u - 0x1_0000_0000_0000_0000) as i64
    }
}

/// `<LittleEndian as ByteOrder>::read_u32` from byteorder: the first four
/// bytes of `buf` as a little-endian `u32`. The crate panics on fewer than
/// four bytes, which `requires` rules out.
#[verifier::external_body]
pub(crate) fn read_u32_le(buf: &[u8]) -> (v: u32)
    requires
        buf@.len() >= 4,
    ensures
        v == le_u32(buf@),
{
    LittleEndian::read_u32(buf)
}

/// `<LittleEndian as ByteOrder>::read_u64` from byteorder: the first eight
/// bytes of `buf` as a little-endian `u64`. The crate panics on fewer than
/// eight bytes, which `requires` rules out.
#[verifier::external_body]
pub(crate) fn read_u64_le(buf: &[u8]) -> (v: u64)
    requires
        buf@.len() >= 8,
    ensures
        v == le_u64(buf@),
{
    LittleEndian::read_u64(buf)
}

/// `<LittleEndian as ByteOrder>::read_i32` from byteorder: the first four
/// bytes of `buf` as a little-endian two's-complement `i32`. The crate panics
/// on fewer than four bytes, which `requires` rules out.
#[verifier::external_body]
pub(crate) fn read_i32_le(buf: &[u8]) -> (v: i32)
    requires
        buf@.len() >= 4,
    ensures
        v == le_i32(buf@),
{
    LittleEndian::read_i32(buf)
}

/// `<LittleEndian as ByteOrder>::read_i64` from byteorder: the first eight
/// bytes of `buf` as a little-endian two's-complement `i64`. The crate panics
/// on fewer than eight bytes, which `requires` rules out.
#[verifier::external_body]
pub(crate) fn read_i64_le(buf: &[u8]) -> (v: i64)
    requires
        buf@.len() >= 8,
    ensures
        v == le_i64(buf@),
{
    LittleEndian::read_i64(buf)
}

} // verus!
