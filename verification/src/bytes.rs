//! Big-endian integer encoding, through the `byteorder` crate.

use byteorder::{BigEndian, ByteOrder};
use vstd::prelude::*;

verus! {

/// The unsigned value of two bytes in big-endian order.
pub open spec fn be_u16(b0: u8, b1: u8) -> u16 {
    ((b0 as u16) << 8u16) | (b1 as u16)
}

/// The unsigned value of four bytes in big-endian order.
pub open spec fn be_u32(b0: u8, b1: u8, b2: u8, b3: u8) -> u32 {
    ((b0 as u32) << 24u32) | ((b1 as u32) << 16u32) | ((b2 as u32) << 8u32) | (b3 as u32)
}

/// The unsigned value of eight bytes in big-endian order.
pub open spec fn be_u64(s: Seq<u8>) -> u64 {
    ((s[0] as u64) << 56u64) | ((s[1] as u64) << 48u64) | ((s[2] as u64) << 40u64) | ((s[3] as u64) << 32u64)
        | ((s[4] as u64) << 24u64) | ((s[5] as u64) << 16u64) | ((s[6] as u64) << 8u64) | (s[7] as u64)
}

/// The two bytes of `v`, most significant first.
pub open spec fn u16_be_bytes(v: u16) -> Seq<u8> {
    seq![(v >> 8u16) as u8, v as u8]
}

/// The four bytes of `v`, most significant first.
pub open spec fn u32_be_bytes(v: u32) -> Seq<u8> {
    seq![(v >> 24u32) as u8, (v >> 16u32) as u8, (v >> 8u32) as u8, v as u8]
}

/// The eight bytes of `v`, most significant first.
pub open spec fn u64_be_bytes(v: u64) -> Seq<u8> {
    seq![
        (v >> 56u64) as u8,
        (v >> 48u64) as u8,
        (v >> 40u64) as u8,
        (v >> 32u64) as u8,
        (v >> 24u64) as u8,
        (v >> 16u64) as u8,
        (v >> 8u64) as u8,
        v as u8,
    ]
}

/// `BigEndian::read_i16` of byteorder: the first two bytes of `buf` as a
/// big-endian two's-complement integer.
#[verifier::external_body]
pub(crate) fn read_be_i16(buf: &[u8]) -> (r: i16)
    requires
        buf.len() >= 2,
    ensures
        r == be_u16(buf@[0], buf@[1]) as i16,
{
    BigEndian::read_i16(buf)
}

/// `BigEndian::read_i32` of byteorder: the first four bytes of `buf` as a
/// big-endian two's-complement integer.
#[verifier::external_body]
pub(crate) fn read_be_i32(buf: &[u8]) -> (r: i32)
    requires
        buf.len() >= 4,
    ensures
        r == be_u32(buf@[0], buf@[1], buf@[2], buf@[3]) as i32,
{
    BigEndian::read_i32(buf)
}

/// `BigEndian::read_i64` of byteorder: the first eight bytes of `buf` as a
/// big-endian two's-complement integer.
#[verifier::external_body]
pub(crate) fn read_be_i64(buf: &[u8]) -> (r: i64)
    requires
        buf.len() >= 8,
    ensures
        r == be_u64(buf@) as i64,
{
    BigEndian::read_i64(buf)
}

/// `BigEndian::write_i16` of byteorder, into a fresh two-byte buffer: the
/// bytes of `n`'s two's complement, most significant first.
#[verifier::external_body]
pub(crate) fn write_be_i16(n: i16) -> (r: [u8; 2])
    ensures
        r@ == u16_be_bytes(n as u16),
{
    let mut b = [0u8; 2];
    BigEndian::write_i16(&mut b, n);
    b
}

/// `BigEndian::write_i32` of byteorder, into a fresh four-byte buffer: the
/// bytes of `n`'s two's complement, most significant first.
#[verifier::external_body]
pub(crate) fn write_be_i32(n: i32) -> (r: [u8; 4])
    ensures
        r@ == u32_be_bytes(n as u32),
{
    let mut b = [0u8; 4];
    BigEndian::write_i32(&mut b, n);
    b
}

/// `BigEndian::write_i64` of byteorder, into a fresh eight-byte buffer: the
/// bytes of `n`'s two's complement, most significant first.
#[verifier::external_body]
pub(crate) fn write_be_i64(n: i64) -> (r: [u8; 8])
    ensures
        r@ == u64_be_bytes(n as u64),
{
    let mut b = [0u8; 8];
    BigEndian::write_i64(&mut b, n);
    b
}

/// Writing a value big-endian and reading it back gives the value.
pub proof fn lemma_be_i16_round_trip(v: i16)
    ensures
        be_u16(u16_be_bytes(v as u16)[0], u16_be_bytes(v as u16)[1]) as i16 == v,
{
    let u = v as u16;
    assert((((((u >> 8u16) as u8) as u16) << 8u16) | ((u as u8) as u16)) == u) by (bit_vector);
    assert((u as i16) == v) by (bit_vector)
        requires
            u == v as u16,
    ;
}

/// Writing a value big-endian and reading it back gives the value.
pub proof fn lemma_be_i32_round_trip(v: i32)
    ensures
        ({
            let b = u32_be_bytes(v as u32);
            be_u32(b[0], b[1], b[2], b[3]) as i32 == v
        }),
{
    let u = v as u32;
    assert(((((u >> 24u32) as u8) as u32) << 24u32 | (((u >> 16u32) as u8) as u32) << 16u32 | (((u >> 8u32) as u8) as u32) << 8u32 | ((u as u8) as u32)) == u) by (bit_vector);
    assert((u as i32) == v) by (bit_vector)
        requires
            u == v as u32,
    ;
}

/// Writing a value big-endian and reading it back gives the value.
pub proof fn lemma_be_i64_round_trip(v: i64)
    ensures
        be_u64(u64_be_bytes(v as u64)) as i64 == v,
{
    let u = v as u64;
    assert(((((u >> 56u64) as u8) as u64) << 56u64 | (((u >> 48u64) as u8) as u64) << 48u64 | (((u >> 40u64) as u8) as u64) << 40u64 | (((u >> 32u64) as u8) as u64) << 32u64
        | (((u >> 24u64) as u8) as u64) << 24u64 | (((u >> 16u64) as u8) as u64) << 16u64 | (((u >> 8u64) as u8) as u64) << 8u64 | ((u as u8) as u64)) == u) by (bit_vector);
    assert((u as i64) == v) by (bit_vector)
        requires
            u == v as u64,
    ;
}

} // verus!
