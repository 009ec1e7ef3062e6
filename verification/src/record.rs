//! The record codec: one record is a checksum, two lengths, a key and a
//! value, laid out back to back.
//!
//! ```text
//! offset  size  field
//! 0       4     checksum  (CRC-32/IEEE of key ++ value, little-endian)
//! 4       4     key_len   (little-endian)
//! 8       4     value_len (little-endian)
//! 12      K     key
//! 12+K    V     value
//! ```

use crate::wire::checksum_ieee;
use crate::wire::crc32_ieee;
use crate::wire::le_bytes;
use crate::wire::lemma_le_bytes_of_value;
use crate::wire::lemma_le_value_of_bytes;
use crate::wire::le_value;
use crate::wire::read_le_u32;
use crate::wire::write_le_u32;
use vstd::prelude::*;
use vstd::slice::slice_subrange;

verus! {

/// Bytes that are owned: a key, a value, a record.
pub type ByteString = Vec<u8>;

/// Bytes that are borrowed.
pub type ByteStr = [u8];

/// A key and the value stored under it.
#[derive(Debug)]
pub struct KeyValuePair {
    pub key: ByteString,
    pub value: ByteString,
}

/// Why an operation of the store failed.
#[derive(Clone, Copy, Debug, PartialEq, Eq, Structural)]
pub enum StoreError {
    /// The bytes end exactly where a record would begin.
    EndOfStream,
    /// The bytes end inside a record.
    TruncatedRecord,
    /// The stored checksum is not that of the stored key and value.
    Corruption,
    /// The two lengths of a record add up to more than the limit.
    OversizedRecord,
    /// The record that the index points at bears another key.
    IndexDesync,
    /// The key is the one reserved for the persisted index.
    ReservedKey,
    /// The engine has not loaded its index yet.
    NotLoaded,
    /// The bytes of a persisted index do not decode to an index.
    MalformedIndex,
}

/// The number of bytes in front of the key: checksum and two lengths.
pub const HEADER_LEN: usize = 12;

/// The bytes of the record that holds `key` and `value`.
pub open spec fn record_bytes(key: Seq<u8>, value: Seq<u8>) -> Seq<u8> {
    le_bytes(crc32_ieee(key + value)) + le_bytes(key.len() as u32) + le_bytes(value.len() as u32)
        + key + value
}

/// The number of bytes that the record of `key` and `value` takes.
pub open spec fn record_len(key: Seq<u8>, value: Seq<u8>) -> int {
    HEADER_LEN as int + key.len() + value.len()
}

/// Whether `key` and `value` can be written as one record under the limit
/// `max_len`: each length fits its 32-bit field, and together they stay
/// within the limit.
pub open spec fn encodable(key: Seq<u8>, value: Seq<u8>, max_len: u64) -> bool {
    &&& key.len() <= u32::MAX
    &&& value.len() <= u32::MAX
    &&& key.len() + value.len() <= max_len
}

/// The checksum field of the record that starts at `at`.
pub open spec fn stored_checksum(log: Seq<u8>, at: int) -> u32 {
    le_value(log.subrange(at, at + 4))
}

/// The key length field of the record that starts at `at`.
pub open spec fn stored_key_len(log: Seq<u8>, at: int) -> int {
    le_value(log.subrange(at + 4, at + 8)) as int
}

/// The value length field of the record that starts at `at`.
pub open spec fn stored_value_len(log: Seq<u8>, at: int) -> int {
    le_value(log.subrange(at + 8, at + 12)) as int
}

/// What reading one record of `log` at offset `at` gives, with `max_len` as
/// the limit on the sum of the two lengths.
///
/// Nothing left to read is `EndOfStream`. Bytes that end inside the header
/// or inside the data are `TruncatedRecord`. Lengths over the limit are
/// `OversizedRecord`, whether or not the data is there. A checksum that does
/// not match is `Corruption`.
pub open spec fn record_at(log: Seq<u8>, at: int, max_len: u64) -> Result<
    (Seq<u8>, Seq<u8>),
    StoreError,
> {
    if at >= log.len() {
        Err(StoreError::EndOfStream)
    } else if log.len() - at < HEADER_LEN {
        Err(StoreError::TruncatedRecord)
    } else {
        let key_len = stored_key_len(log, at);
        let value_len = stored_value_len(log, at);
        let start = at + HEADER_LEN;
        if key_len + value_len > max_len {
            Err(StoreError::OversizedRecord)
        } else if log.len() - start < key_len + value_len {
            Err(StoreError::TruncatedRecord)
        } else {
            let key = log.subrange(start, start + key_len);
            let value = log.subrange(start + key_len, start + key_len + value_len);
            if crc32_ieee(key + value) != stored_checksum(log, at) {
                Err(StoreError::Corruption)
            } else {
                Ok((key, value))
            }
        }
    }
}

/// Appends the bytes of `src` to `out`.
pub(crate) fn append_bytes(out: &mut Vec<u8>, src: &[u8])
    ensures
        final(out)@ == old(out)@ + src@,
{
    out.extend_from_slice(src);
    assert(out@ =~= old(out)@ + src@);
}

/// Writes `key` and `value` as one record.
///
/// Fails with `OversizedRecord` when a length does not fit its field or the
/// two together exceed `max_len`.
pub fn encode_record(key: &[u8], value: &[u8], max_len: u64) -> (r: Result<Vec<u8>, StoreError>)
    ensures
        r matches Ok(bytes) ==> bytes@ == record_bytes(key@, value@),
        r matches Err(e) ==> e == StoreError::OversizedRecord,
        r is Ok <==> encodable(key@, value@, max_len),
{
    let key_len: usize = key.len();
    let value_len: usize = value.len();
    if key_len > 0xFFFF_FFFF || value_len > 0xFFFF_FFFF {
        return Err(StoreError::OversizedRecord);
    }
    if key_len as u64 + value_len as u64 > max_len {
        return Err(StoreError::OversizedRecord);
    }
    let mut data: Vec<u8> = Vec::new();
    append_bytes(&mut data, key);
    append_bytes(&mut data, value);
    let checksum: u32 = checksum_ieee(data.as_slice());
    let mut out: Vec<u8> = Vec::new();
    let field = write_le_u32(checksum);
    append_bytes(&mut out, field.as_slice());
    let field = write_le_u32(key_len as u32);
    append_bytes(&mut out, field.as_slice());
    let field = write_le_u32(value_len as u32);
    append_bytes(&mut out, field.as_slice());
    append_bytes(&mut out, data.as_slice());
    assert(out@ =~= record_bytes(key@, value@));
    Ok(out)
}

/// Reads the record of `log` that starts at offset `at`.
pub fn decode_record(log: &[u8], at: u64, max_len: u64) -> (r: Result<KeyValuePair, StoreError>)
    ensures
        r matches Ok(pair) ==> record_at(log@, at as int, max_len) == Ok::<
            (Seq<u8>, Seq<u8>),
            StoreError,
        >((pair.key@, pair.value@)),
        r matches Err(e) ==> record_at(log@, at as int, max_len) == Err::<
            (Seq<u8>, Seq<u8>),
            StoreError,
        >(e),
{
    let len: usize = log.len();
    if at >= len as u64 {
        return Err(StoreError::EndOfStream);
    }
    let at: usize = at as usize;
    if len - at < HEADER_LEN {
        return Err(StoreError::TruncatedRecord);
    }
    let saved_checksum: u32 = read_le_u32(slice_subrange(log, at, at + 4));
    let key_len: u32 = read_le_u32(slice_subrange(log, at + 4, at + 8));
    let value_len: u32 = read_le_u32(slice_subrange(log, at + 8, at + 12));
    let data_len: u64 = key_len as u64 + value_len as u64;
    if data_len > max_len {
        return Err(StoreError::OversizedRecord);
    }
    let start: usize = at + HEADER_LEN;
    if ((len - start) as u64) < data_len {
        return Err(StoreError::TruncatedRecord);
    }
    let middle: usize = start + key_len as usize;
    let end: usize = middle + value_len as usize;
    let data = slice_subrange(log, start, end);
    let checksum: u32 = checksum_ieee(data);
    proof {
        assert(data@ =~= log@.subrange(start as int, middle as int) + log@.subrange(
            middle as int,
            end as int,
        ));
    }
    if checksum != saved_checksum {
        return Err(StoreError::Corruption);
    }
    let mut key: Vec<u8> = Vec::new();
    append_bytes(&mut key, slice_subrange(log, start, middle));
    let mut value: Vec<u8> = Vec::new();
    append_bytes(&mut value, slice_subrange(log, middle, end));
    assert(key@ =~= log@.subrange(start as int, middle as int));
    assert(value@ =~= log@.subrange(middle as int, end as int));
    Ok(KeyValuePair { key, value })
}

/// A record that was written is read back: wherever the bytes of a record
/// stand in a log, reading at their offset gives the key and the value.
pub proof fn lemma_record_roundtrip(
    before: Seq<u8>,
    key: Seq<u8>,
    value: Seq<u8>,
    after: Seq<u8>,
    max_len: u64,
)
    requires
        encodable(key, value, max_len),
    ensures
        record_at(before + record_bytes(key, value) + after, before.len() as int, max_len) == Ok::<
            (Seq<u8>, Seq<u8>),
            StoreError,
        >((key, value)),
        record_bytes(key, value).len() == record_len(key, value),
{
    let log = before + record_bytes(key, value) + after;
    let at = before.len() as int;
    let start = at + HEADER_LEN as int;
    lemma_le_value_of_bytes(crc32_ieee(key + value));
    lemma_le_value_of_bytes(key.len() as u32);
    lemma_le_value_of_bytes(value.len() as u32);
    assert(log.subrange(at, at + 4) =~= le_bytes(crc32_ieee(key + value)));
    assert(log.subrange(at + 4, at + 8) =~= le_bytes(key.len() as u32));
    assert(log.subrange(at + 8, at + 12) =~= le_bytes(value.len() as u32));
    assert(log.subrange(start, start + key.len()) =~= key);
    assert(log.subrange(start + key.len(), start + key.len() + value.len()) =~= value);
}

/// What was read successfully does not change when bytes are appended to
/// the log, nor does a checksum or a length that was refused.
pub proof fn lemma_record_at_extended(log: Seq<u8>, at: int, max_len: u64, more: Seq<u8>)
    requires
        0 <= at,
        record_at(log, at, max_len) is Ok || record_at(log, at, max_len) == Err::<
            (Seq<u8>, Seq<u8>),
            StoreError,
        >(StoreError::Corruption) || record_at(log, at, max_len) == Err::<
            (Seq<u8>, Seq<u8>),
            StoreError,
        >(StoreError::OversizedRecord),
    ensures
        record_at(log + more, at, max_len) == record_at(log, at, max_len),
{
    let longer = log + more;
    assert(longer.subrange(at, at + 4) =~= log.subrange(at, at + 4));
    assert(longer.subrange(at + 4, at + 8) =~= log.subrange(at + 4, at + 8));
    assert(longer.subrange(at + 8, at + 12) =~= log.subrange(at + 8, at + 12));
    let key_len = stored_key_len(log, at);
    let value_len = stored_value_len(log, at);
    let start = at + HEADER_LEN as int;
    if key_len + value_len <= max_len {
        assert(longer.subrange(start, start + key_len) =~= log.subrange(
            start,
            start + key_len,
        ));
        assert(longer.subrange(start + key_len, start + key_len + value_len) =~= log.subrange(
            start + key_len,
            start + key_len + value_len,
        ));
    }
}

/// A record whose checksum field was overwritten with other bytes no longer
/// reads: the read fails with `Corruption`.
pub proof fn lemma_checksum_field_guards(log: Seq<u8>, at: int, max_len: u64, field: Seq<u8>)
    requires
        0 <= at,
        record_at(log, at, max_len) is Ok,
        field.len() == 4,
        field != log.subrange(at, at + 4),
    ensures
        record_at(
            log.subrange(0, at) + field + log.subrange(at + 4, log.len() as int),
            at,
            max_len,
        ) == Err::<(Seq<u8>, Seq<u8>), StoreError>(StoreError::Corruption),
{
    let bad = log.subrange(0, at) + field + log.subrange(at + 4, log.len() as int);
    let key_len = stored_key_len(log, at);
    let value_len = stored_value_len(log, at);
    let start = at + HEADER_LEN as int;
    assert(bad.len() == log.len());
    assert(bad.subrange(at, at + 4) =~= field);
    assert(bad.subrange(at + 4, at + 8) =~= log.subrange(at + 4, at + 8));
    assert(bad.subrange(at + 8, at + 12) =~= log.subrange(at + 8, at + 12));
    assert(bad.subrange(start, start + key_len) =~= log.subrange(
        start,
        start + key_len,
    ));
    assert(bad.subrange(start + key_len, start + key_len + value_len) =~= log.subrange(
        start + key_len,
        start + key_len + value_len,
    ));
    lemma_le_bytes_of_value(field);
    lemma_le_bytes_of_value(log.subrange(at, at + 4));
}

/// A record that was read is read the same from any front part of the log
/// that still holds all of it.
pub proof fn lemma_record_at_prefix(log: Seq<u8>, at: int, max_len: u64, len: int)
    requires
        0 <= at,
        record_at(log, at, max_len) is Ok,
        at + record_len(record_at(log, at, max_len)->Ok_0.0, record_at(log, at, max_len)->Ok_0.1)
            <= len <= log.len(),
    ensures
        record_at(log.take(len), at, max_len) == record_at(log, at, max_len),
{
    let front = log.take(len);
    assert(front.subrange(at, at + 4) =~= log.subrange(at, at + 4));
    assert(front.subrange(at + 4, at + 8) =~= log.subrange(at + 4, at + 8));
    assert(front.subrange(at + 8, at + 12) =~= log.subrange(at + 8, at + 12));
    let key_len = stored_key_len(log, at);
    let value_len = stored_value_len(log, at);
    let start = at + HEADER_LEN as int;
    assert(front.subrange(start, start + key_len) =~= log.subrange(start, start + key_len));
    assert(front.subrange(start + key_len, start + key_len + value_len) =~= log.subrange(
        start + key_len,
        start + key_len + value_len,
    ));
}

} // verus!
