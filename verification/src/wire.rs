//! The fixed-width fields of a record: 32-bit little-endian integers and the
//! CRC-32 checksum.

use byteorder::ByteOrder;
use byteorder::LittleEndian;
use vstd::prelude::*;

verus! {

/// The four bytes that stand for `n` in little-endian order.
pub open spec fn le_bytes(n: u32) -> Seq<u8> {
    seq![
        (n % 256) as u8,
        ((n / 256) % 256) as u8,
        ((n / 65536) % 256) as u8,
        ((n / 16777216) % 256) as u8,
    ]
}

/// The number that the first four bytes of `b` stand for in little-endian
/// order.
pub open spec fn le_value(b: Seq<u8>) -> u32
    recommends
        b.len() >= 4,
{
    (b[0] as int + 256 * (b[1] as int) + 65536 * (b[2] as int) + 16777216 * (b[3] as int)) as u32
}

/// The CRC-32/IEEE checksum of `data`, as `crc::crc32::checksum_ieee`
/// computes it. Nothing more is claimed of it than that it is a function of
/// the bytes.
pub uninterp spec fn crc32_ieee(data: Seq<u8>) -> u32;

/// Decoding the encoding of a number gives the number back.
pub proof fn lemma_le_value_of_bytes(n: u32)
    ensures
        le_bytes(n).len() == 4,
        le_value(le_bytes(n)) == n,
{
}

/// Encoding the value of four bytes gives the four bytes back, so two
/// different fields never stand for the same number.
pub proof fn lemma_le_bytes_of_value(b: Seq<u8>)
    requires
        b.len() == 4,
    ensures
        le_bytes(le_value(b)) == b,
{
    assert(le_bytes(le_value(b)) =~= b);
}

/// Calls `byteorder::LittleEndian::read_u32`. Believed of it: it reads the
/// first four bytes of `buf` as a number in little-endian order. It panics
/// on a shorter slice, which the precondition keeps away.
#[verifier::external_body]
pub(crate) fn read_le_u32(buf: &[u8]) -> (n: u32)
    requires
        buf@.len() >= 4,
    ensures
        n == le_value(buf@),
{
    LittleEndian::read_u32(buf)
}

/// Calls `byteorder::LittleEndian::write_u32` on a buffer of four bytes.
/// Believed of it: it fills the buffer with `n` in little-endian order.
#[verifier::external_body]
pub(crate) fn write_le_u32(n: u32) -> (buf: [u8; 4])
    ensures
        buf@ == le_bytes(n),
{
    let mut buf = [0u8; 4];
    LittleEndian::write_u32(&mut buf, n);
    buf
}

/// Calls `crc::crc32::checksum_ieee`. Believed of it: what it returns
/// depends on the bytes alone.
#[verifier::external_body]
pub(crate) fn checksum_ieee(data: &[u8]) -> (sum: u32)
    ensures
        sum == crc32_ieee(data@),
{
    crc::crc32::checksum_ieee(data)
}

} // verus!
