//! The log: records laid back to back in a growing sequence of bytes.
//!
//! A log is read from the front, one record after the other, until the bytes
//! end exactly where a record would begin.

use crate::record::decode_record;
use crate::record::encodable;
use crate::record::lemma_record_at_extended;
use crate::record::lemma_record_at_prefix;
use crate::record::lemma_record_roundtrip;
use crate::record::record_at;
use crate::record::record_bytes;
use crate::record::record_len;
use crate::record::KeyValuePair;
use crate::record::StoreError;
use crate::record::HEADER_LEN;
use vstd::prelude::*;

verus! {

/// One record of a log, with the offset of its first byte.
pub struct LogEntry {
    pub offset: int,
    pub key: Seq<u8>,
    pub value: Seq<u8>,
}

/// The records of `log` from offset `at` to its end, in offset order, or the
/// error that stops the scan.
pub open spec fn records_from(log: Seq<u8>, at: int, max_len: u64) -> Result<
    Seq<LogEntry>,
    StoreError,
>
    decreases log.len() - at,
{
    if at < 0 || at >= log.len() {
        Ok(Seq::empty())
    } else {
        match record_at(log, at, max_len) {
            Ok((key, value)) => match records_from(log, at + record_len(key, value), max_len) {
                Ok(rest) => Ok(seq![LogEntry { offset: at, key, value }] + rest),
                Err(e) => Err(e),
            },
            Err(e) => Err(e),
        }
    }
}

/// The offset and the value of the last of `entries` that bears `key`.
pub open spec fn last_with_key(entries: Seq<LogEntry>, key: Seq<u8>) -> Option<(int, Seq<u8>)>
    decreases entries.len(),
{
    if entries.len() == 0 {
        None
    } else if entries.last().key == key {
        Some((entries.last().offset, entries.last().value))
    } else {
        last_with_key(entries.drop_last(), key)
    }
}

/// The entries that a vector of scanned records stands for.
pub open spec fn entries_of(records: Seq<(u64, KeyValuePair)>) -> Seq<LogEntry> {
    Seq::new(
        records.len(),
        |i: int| LogEntry { offset: records[i].0 as int, key: records[i].1.key@, value: records[i].1.value@ },
    )
}

/// `scanned`, then what a scan that goes on gives.
pub open spec fn continued(scanned: Seq<LogEntry>, rest: Result<Seq<LogEntry>, StoreError>) -> Result<
    Seq<LogEntry>,
    StoreError,
> {
    match rest {
        Ok(more) => Ok(scanned + more),
        Err(e) => Err(e),
    }
}

/// Whether two byte strings are the same.
pub fn bytes_equal(a: &[u8], b: &[u8]) -> (same: bool)
    ensures
        same == (a@ == b@),
{
    if a.len() != b.len() {
        return false;
    }
    let mut i: usize = 0;
    while i < a.len()
        invariant
            a@.len() == b@.len(),
            i <= a@.len(),
            forall|j: int| 0 <= j < i ==> a@[j] == b@[j],
        decreases a@.len() - i,
    {
        if a[i] != b[i] {
            return false;
        }
        i = i + 1;
    }
    assert(a@ =~= b@);
    true
}

/// Appends `record` to `log` and returns the offset at which it begins.
pub fn append_record(log: &mut Vec<u8>, record: &[u8]) -> (offset: u64)
    ensures
        offset == old(log)@.len(),
        final(log)@ == old(log)@ + record@,
{
    let offset: u64 = log.len() as u64;
    crate::record::append_bytes(log, record);
    offset
}

/// One step of a scan: a record that reads at `at` is the first of the
/// records from `at`, and the scan goes on behind it.
pub proof fn lemma_scan_step(log: Seq<u8>, at: int, max_len: u64)
    requires
        0 <= at,
        record_at(log, at, max_len) is Ok,
    ensures
        at < log.len(),
        at + record_len(record_at(log, at, max_len)->Ok_0.0, record_at(log, at, max_len)->Ok_0.1)
            <= log.len(),
        records_from(log, at, max_len) == continued(
            seq![
                LogEntry {
                    offset: at,
                    key: record_at(log, at, max_len)->Ok_0.0,
                    value: record_at(log, at, max_len)->Ok_0.1,
                },
            ],
            records_from(
                log,
                at + record_len(
                    record_at(log, at, max_len)->Ok_0.0,
                    record_at(log, at, max_len)->Ok_0.1,
                ),
                max_len,
            ),
        ),
{
}

/// Scans `log` from its start for the last record that bears `key`.
pub fn find_record(log: &[u8], key: &[u8], max_len: u64) -> (r: Result<
    Option<(u64, Vec<u8>)>,
    StoreError,
>)
    ensures
        match records_from(log@, 0, max_len) {
            Ok(entries) => match r {
                Ok(Some(hit)) => last_with_key(entries, key@) == Some((hit.0 as int, hit.1@)),
                Ok(None) => last_with_key(entries, key@).is_none(),
                Err(_) => false,
            },
            Err(e) => r == Err::<Option<(u64, Vec<u8>)>, StoreError>(e),
        },
{
    let mut found: Option<(u64, Vec<u8>)> = None;
    let mut position: u64 = 0;
    let len: usize = log.len();
    let ghost mut scanned: Seq<LogEntry> = Seq::empty();
    loop
        invariant
            len == log@.len(),
            position <= len,
            records_from(log@, 0, max_len) == continued(
                scanned,
                records_from(log@, position as int, max_len),
            ),
            match found {
                Some(hit) => last_with_key(scanned, key@) == Some((hit.0 as int, hit.1@)),
                None => last_with_key(scanned, key@).is_none(),
            },
        decreases log@.len() - position,
    {
        match decode_record(log, position, max_len) {
            Ok(pair) => {
                proof {
                    lemma_scan_step(log@, position as int, max_len);
                    let entry = LogEntry {
                        offset: position as int,
                        key: pair.key@,
                        value: pair.value@,
                    };
                    let more = records_from(
                        log@,
                        position + record_len(pair.key@, pair.value@),
                        max_len,
                    );
                    if more is Ok {
                        assert(scanned + (seq![entry] + more->Ok_0) =~= scanned.push(entry)
                            + more->Ok_0);
                    }
                    assert(scanned.push(entry).drop_last() =~= scanned);
                    scanned = scanned.push(entry);
                }
                let next: u64 = position + HEADER_LEN as u64 + pair.key.len() as u64
                    + pair.value.len() as u64;
                if bytes_equal(key, pair.key.as_slice()) {
                    found = Some((position, pair.value));
                }
                position = next;
            },
            Err(e) => {
                if e == StoreError::EndOfStream {
                    assert(scanned + Seq::<LogEntry>::empty() =~= scanned);
                    return Ok(found);
                }
                return Err(e);
            },
        }
    }
}

/// Every entry of a scan reads back at its own offset.
pub proof fn lemma_entries_readable(log: Seq<u8>, at: int, max_len: u64, i: int)
    requires
        0 <= at,
        records_from(log, at, max_len) is Ok,
        0 <= i < records_from(log, at, max_len)->Ok_0.len(),
    ensures
        ({
            let entry = records_from(log, at, max_len)->Ok_0[i];
            &&& at <= entry.offset < log.len()
            &&& record_at(log, entry.offset, max_len) == Ok::<(Seq<u8>, Seq<u8>), StoreError>(
                (entry.key, entry.value),
            )
        }),
    decreases log.len() - at,
{
    let first = record_at(log, at, max_len);
    if first is Ok {
        lemma_scan_step(log, at, max_len);
        if i > 0 {
            lemma_entries_readable(log, at + record_len(first->Ok_0.0, first->Ok_0.1), max_len, i - 1);
        }
    }
}

/// A hit of `last_with_key` is one of the entries, and it bears the key.
pub proof fn lemma_last_with_key_is_entry(entries: Seq<LogEntry>, key: Seq<u8>)
    requires
        last_with_key(entries, key) is Some,
    ensures
        exists|i: int|
            0 <= i < entries.len() && (#[trigger] entries[i]).key == key && entries[i].offset
                == last_with_key(entries, key)->Some_0.0 && entries[i].value == last_with_key(
                entries,
                key,
            )->Some_0.1,
    decreases entries.len(),
{
    if entries.last().key == key {
        assert(entries[entries.len() - 1].key == key);
    } else {
        lemma_last_with_key_is_entry(entries.drop_last(), key);
        let i = choose|i: int|
            0 <= i < entries.drop_last().len() && (#[trigger] entries.drop_last()[i]).key == key
                && entries.drop_last()[i].offset == last_with_key(entries.drop_last(), key)->Some_0.0
                && entries.drop_last()[i].value == last_with_key(
                entries.drop_last(),
                key,
            )->Some_0.1;
        assert(entries[i] == entries.drop_last()[i]);
    }
}

/// A record appended to a log that scans cleanly is the last entry of the
/// longer log, at the offset where the shorter one ended; the entries
/// before it stay as they were.
pub proof fn lemma_records_appended(
    log: Seq<u8>,
    at: int,
    max_len: u64,
    key: Seq<u8>,
    value: Seq<u8>,
)
    requires
        0 <= at <= log.len(),
        records_from(log, at, max_len) is Ok,
        encodable(key, value, max_len),
    ensures
        records_from(log + record_bytes(key, value), at, max_len) == Ok::<
            Seq<LogEntry>,
            StoreError,
        >(
            records_from(log, at, max_len)->Ok_0.push(
                LogEntry { offset: log.len() as int, key, value },
            ),
        ),
    decreases log.len() - at,
{
    let longer = log + record_bytes(key, value);
    let added = LogEntry { offset: log.len() as int, key, value };
    if at == log.len() {
        lemma_record_roundtrip(log, key, value, Seq::empty(), max_len);
        assert(log + record_bytes(key, value) + Seq::<u8>::empty() =~= longer);
        lemma_scan_step(longer, at, max_len);
        assert(seq![added] + Seq::<LogEntry>::empty() =~= Seq::<LogEntry>::empty().push(added));
    } else {
        let first = record_at(log, at, max_len);
        lemma_scan_step(log, at, max_len);
        lemma_record_at_extended(log, at, max_len, record_bytes(key, value));
        lemma_scan_step(longer, at, max_len);
        let next = at + record_len(first->Ok_0.0, first->Ok_0.1);
        lemma_records_appended(log, next, max_len, key, value);
        let head = LogEntry { offset: at, key: first->Ok_0.0, value: first->Ok_0.1 };
        let rest = records_from(log, next, max_len)->Ok_0;
        assert(seq![head] + rest.push(added) =~= (seq![head] + rest).push(added));
    }
}

/// Reads the records of `log` from offset `from` to its end, each with the
/// offset of its first byte. The first record that does not read ends the
/// scan with its error.
pub fn scan_records(log: &[u8], from: u64, max_len: u64) -> (r: Result<
    Vec<(u64, KeyValuePair)>,
    StoreError,
>)
    ensures
        match records_from(log@, from as int, max_len) {
            Ok(entries) => r matches Ok(records) && entries_of(records@) == entries,
            Err(e) => r matches Err(x) && x == e,
        },
{
    let mut records: Vec<(u64, KeyValuePair)> = Vec::new();
    let mut position: u64 = from;
    let len: usize = log.len();
    loop
        invariant
            len == log@.len(),
            records_from(log@, from as int, max_len) == continued(
                entries_of(records@),
                records_from(log@, position as int, max_len),
            ),
        decreases log@.len() - position,
    {
        match decode_record(log, position, max_len) {
            Ok(pair) => {
                proof {
                    lemma_scan_step(log@, position as int, max_len);
                }
                let next: u64 = position + HEADER_LEN as u64 + pair.key.len() as u64
                    + pair.value.len() as u64;
                let ghost before = entries_of(records@);
                let ghost entry = LogEntry {
                    offset: position as int,
                    key: pair.key@,
                    value: pair.value@,
                };
                records.push((position, pair));
                proof {
                    assert(entries_of(records@) =~= before.push(entry));
                    let more = records_from(log@, next as int, max_len);
                    if more is Ok {
                        assert(before + (seq![entry] + more->Ok_0) =~= before.push(entry)
                            + more->Ok_0);
                    }
                }
                position = next;
            },
            Err(e) => {
                if e == StoreError::EndOfStream {
                    assert(entries_of(records@) + Seq::<LogEntry>::empty() =~= entries_of(
                        records@,
                    ));
                    return Ok(records);
                }
                return Err(e);
            },
        }
    }
}

/// The offset behind the last record that reads, scanning `log` from `at`:
/// where the scan ends without error, the length of the log; else the
/// offset of the first record that does not read.
pub open spec fn good_prefix(log: Seq<u8>, at: int, max_len: u64) -> int
    decreases log.len() - at,
{
    if at < 0 || at >= log.len() {
        at
    } else {
        match record_at(log, at, max_len) {
            Ok((key, value)) => good_prefix(log, at + record_len(key, value), max_len),
            Err(_) => at,
        }
    }
}

/// The offset behind the last record of `log` that reads in a scan from its
/// start.
pub fn last_good_offset(log: &[u8], max_len: u64) -> (offset: u64)
    ensures
        offset == good_prefix(log@, 0, max_len),
        offset <= log@.len(),
{
    let mut position: u64 = 0;
    let len: usize = log.len();
    loop
        invariant
            len == log@.len(),
            position <= len,
            good_prefix(log@, 0, max_len) == good_prefix(log@, position as int, max_len),
        decreases log@.len() - position,
    {
        match decode_record(log, position, max_len) {
            Ok(pair) => {
                proof {
                    lemma_scan_step(log@, position as int, max_len);
                }
                position = position + HEADER_LEN as u64 + pair.key.len() as u64
                    + pair.value.len() as u64;
            },
            Err(_) => {
                return position;
            },
        }
    }
}

/// Cut behind its last record that reads, a log scans without error. A log
/// that scans without error is cut nowhere.
pub proof fn lemma_good_prefix_scans(log: Seq<u8>, at: int, max_len: u64)
    requires
        0 <= at <= log.len(),
    ensures
        at <= good_prefix(log, at, max_len) <= log.len(),
        records_from(log.take(good_prefix(log, at, max_len)), at, max_len) is Ok,
        records_from(log, at, max_len) matches Ok(entries) ==> good_prefix(log, at, max_len)
            == log.len(),
    decreases log.len() - at,
{
    let cut = good_prefix(log, at, max_len);
    if at < log.len() {
        let first = record_at(log, at, max_len);
        if first is Ok {
            lemma_scan_step(log, at, max_len);
            let next = at + record_len(first->Ok_0.0, first->Ok_0.1);
            lemma_good_prefix_scans(log, next, max_len);
            lemma_record_at_prefix(log, at, max_len, cut);
            lemma_scan_step(log.take(cut), at, max_len);
        } else {
            assert(log.take(at).len() == at);
        }
    }
}

} // verus!
