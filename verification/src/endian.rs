//! Big-endian integers as they appear in the image file.
//!
//! The byte order of every multi-byte field — header fields, table entries
//! and reference counts — is big-endian. The spec functions here define that
//! encoding arithmetically; the conversions themselves are done by the
//! `byteorder` crate, whose results are taken on trust to match them.

use vstd::prelude::*;
use vstd::array::array_as_slice;
use byteorder::{BigEndian, ByteOrder};

verus! {

/// The 16-bit value whose big-endian encoding is the first two bytes of `b`.
pub open spec fn be_u16(b: Seq<u8>) -> u16
    recommends
        b.len() >= 2,
{
    (b[0] as int * 0x100 + b[1] as int) as u16
}

/// The 32-bit value whose big-endian encoding is the first four bytes of `b`.
pub open spec fn be_u32(b: Seq<u8>) -> u32
    recommends
        b.len() >= 4,
{
    (b[0] as int * 0x100_0000 + b[1] as int * 0x1_0000 + b[2] as int * 0x100 + b[3] as int) as u32
}

/// The 64-bit value whose big-endian encoding is the first eight bytes of `b`.
pub open spec fn be_u64(b: Seq<u8>) -> u64
    recommends
        b.len() >= 8,
{
    (b[0] as int * 0x100_0000_0000_0000 + b[1] as int * 0x1_0000_0000_0000 + b[2] as int
        * 0x100_0000_0000 + b[3] as int * 0x1_0000_0000 + b[4] as int * 0x100_0000 + b[5] as int
        * 0x1_0000 + b[6] as int * 0x100 + b[7] as int) as u64
}

/// The two bytes that encode `v`, most significant first.
#[verifier::opaque]
pub open spec fn u16_be_bytes(v: u16) -> Seq<u8> {
    seq![(v / 0x100) as u8, (v % 0x100) as u8]
}

/// The four bytes that encode `v`, most significant first.
#[verifier::opaque]
pub open spec fn u32_be_bytes(v: u32) -> Seq<u8> {
    seq![
        (v / 0x100_0000) as u8,
        (v / 0x1_0000 % 0x100) as u8,
        (v / 0x100 % 0x100) as u8,
        (v % 0x100) as u8,
    ]
}

/// The eight bytes that encode `v`, most significant first.
#[verifier::opaque]
pub open spec fn u64_be_bytes(v: u64) -> Seq<u8> {
    seq![
        (v / 0x100_0000_0000_0000) as u8,
        (v / 0x1_0000_0000_0000 % 0x100) as u8,
        (v / 0x100_0000_0000 % 0x100) as u8,
        (v / 0x1_0000_0000 % 0x100) as u8,
        (v / 0x100_0000 % 0x100) as u8,
        (v / 0x1_0000 % 0x100) as u8,
        (v / 0x100 % 0x100) as u8,
        (v % 0x100) as u8,
    ]
}

/// Decoding the encoding of a 16-bit value gives the value back.
pub proof fn lemma_be_u16_of_bytes(v: u16)
    ensures
        u16_be_bytes(v).len() == 2,
        be_u16(u16_be_bytes(v)) == v,
{
    reveal(u16_be_bytes);
}

/// Decoding the encoding of a 32-bit value gives the value back.
pub proof fn lemma_be_u32_of_bytes(v: u32)
    ensures
        u32_be_bytes(v).len() == 4,
        be_u32(u32_be_bytes(v)) == v,
{
    reveal(u32_be_bytes);
    assert(((v / 0x100_0000) as u8) as int * 0x100_0000 + ((v / 0x1_0000 % 0x100) as u8) as int
        * 0x1_0000 + ((v / 0x100 % 0x100) as u8) as int * 0x100 + ((v % 0x100) as u8) as int
        == v as int) by (bit_vector);
}

/// Decoding the encoding of a 64-bit value gives the value back.
pub proof fn lemma_be_u64_of_bytes(v: u64)
    ensures
        u64_be_bytes(v).len() == 8,
        be_u64(u64_be_bytes(v)) == v,
{
    reveal(u64_be_bytes);
    assert(((v / 0x100_0000_0000_0000) as u8) as int * 0x100_0000_0000_0000 + ((v
        / 0x1_0000_0000_0000 % 0x100) as u8) as int * 0x1_0000_0000_0000 + ((v / 0x100_0000_0000
        % 0x100) as u8) as int * 0x100_0000_0000 + ((v / 0x1_0000_0000 % 0x100) as u8) as int
        * 0x1_0000_0000 + ((v / 0x100_0000 % 0x100) as u8) as int * 0x100_0000 + ((v / 0x1_0000
        % 0x100) as u8) as int * 0x1_0000 + ((v / 0x100 % 0x100) as u8) as int * 0x100 + ((v
        % 0x100) as u8) as int == v as int) by (bit_vector);
}

/// Calls `byteorder::BigEndian::read_u16`, which decodes the first two bytes
/// of `buf` as a big-endian integer and panics on a shorter buffer.
#[verifier::external_body]
pub(crate) fn read_be_u16(buf: &[u8]) -> (r: u16)
    requires
        buf@.len() >= 2,
    ensures
        r == be_u16(buf@),
{
    BigEndian::read_u16(buf)
}

/// Calls `byteorder::BigEndian::read_u32`, which decodes the first four bytes
/// of `buf` as a big-endian integer and panics on a shorter buffer.
#[verifier::external_body]
pub(crate) fn read_be_u32(buf: &[u8]) -> (r: u32)
    requires
        buf@.len() >= 4,
    ensures
        r == be_u32(buf@),
{
    BigEndian::read_u32(buf)
}

/// Calls `byteorder::BigEndian::read_u64`, which decodes the first eight bytes
/// of `buf` as a big-endian integer and panics on a shorter buffer.
#[verifier::external_body]
pub(crate) fn read_be_u64(buf: &[u8]) -> (r: u64)
    requires
        buf@.len() >= 8,
    ensures
        r == be_u64(buf@),
{
    BigEndian::read_u64(buf)
}

/// Calls `byteorder::BigEndian::write_u16` on a two-byte buffer, which it
/// fills with the big-endian encoding of `n`.
#[verifier::external_body]
fn write_be_u16(n: u16) -> (r: [u8; 2])
    ensures
        r@ == u16_be_bytes(n),
{
    let mut buf = [0u8; 2];
    BigEndian::write_u16(&mut buf, n);
    buf
}

/// Calls `byteorder::BigEndian::write_u32` on a four-byte buffer, which it
/// fills with the big-endian encoding of `n`.
#[verifier::external_body]
fn write_be_u32(n: u32) -> (r: [u8; 4])
    ensures
        r@ == u32_be_bytes(n),
{
    let mut buf = [0u8; 4];
    BigEndian::write_u32(&mut buf, n);
    buf
}

/// Calls `byteorder::BigEndian::write_u64` on an eight-byte buffer, which it
/// fills with the big-endian encoding of `n`.
#[verifier::external_body]
fn write_be_u64(n: u64) -> (r: [u8; 8])
    ensures
        r@ == u64_be_bytes(n),
{
    let mut buf = [0u8; 8];
    BigEndian::write_u64(&mut buf, n);
    buf
}

/// Appends the encoding of `v` to `out`.
pub(crate) fn put_u16(out: &mut Vec<u8>, v: u16)
    ensures
        final(out)@ == old(out)@ + u16_be_bytes(v),
{
    let b: [u8; 2] = write_be_u16(v);
    out.extend_from_slice(array_as_slice(&b));
    assert(out@ =~= old(out)@ + u16_be_bytes(v));
}

/// Appends the encoding of `v` to `out`.
pub(crate) fn put_u32(out: &mut Vec<u8>, v: u32)
    ensures
        final(out)@ == old(out)@ + u32_be_bytes(v),
{
    let b: [u8; 4] = write_be_u32(v);
    out.extend_from_slice(array_as_slice(&b));
    assert(out@ =~= old(out)@ + u32_be_bytes(v));
}

/// Appends the encoding of `v` to `out`.
pub(crate) fn put_u64(out: &mut Vec<u8>, v: u64)
    ensures
        final(out)@ == old(out)@ + u64_be_bytes(v),
{
    let b: [u8; 8] = write_be_u64(v);
    out.extend_from_slice(array_as_slice(&b));
    assert(out@ =~= old(out)@ + u64_be_bytes(v));
}

} // verus!
