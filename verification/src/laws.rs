//! What holds of a store across its operations.
//!
//! Each law is stated over the views of a store, in the terms in which the
//! operations state their results.

use crate::engine::index_after;
use crate::engine::index_record;
use crate::engine::loaded_index;
use crate::engine::Layout;
use crate::engine::StoreModel;
use crate::index::bincode_entries;
use crate::index::lemma_put_entry;
use crate::index::lemma_remove_key;
use crate::index::map_of;
use crate::index::reserved_key;
use crate::log::good_prefix;
use crate::log::last_with_key;
use crate::log::lemma_entries_readable;
use crate::log::lemma_good_prefix_scans;
use crate::log::lemma_last_with_key_is_entry;
use crate::log::lemma_records_appended;
use crate::log::lemma_scan_step;
use crate::log::records_from;
use crate::log::LogEntry;
use crate::record::encodable;
use crate::record::lemma_checksum_field_guards;
use crate::record::lemma_record_at_extended;
use crate::record::lemma_record_roundtrip;
use crate::record::record_at;
use crate::record::record_bytes;
use crate::record::record_len;
use crate::record::StoreError;
use vstd::prelude::*;

verus! {

/// Whether each key of `index` is recorded at the offset of the last of
/// `entries` that bears it.
pub open spec fn agrees(index: Map<Seq<u8>, u64>, entries: Seq<LogEntry>) -> bool {
    forall|k: Seq<u8>| #[trigger]
        index.contains_key(k) ==> {
            &&& last_with_key(entries, k) is Some
            &&& last_with_key(entries, k)->Some_0.0 == index[k]
        }
}

/// Whether every record under the reserved key among `entries` holds an
/// index that agrees with the records in front of it: with `before` and
/// those of `entries` that precede it.
pub open spec fn index_records_agree(before: Seq<LogEntry>, entries: Seq<LogEntry>) -> bool {
    forall|i: int|
        0 <= i < entries.len() && (#[trigger] entries[i]).key == reserved_key() ==> {
            &&& bincode_entries(entries[i].value) is Some
            &&& agrees(
                map_of(bincode_entries(entries[i].value)->Some_0).remove(reserved_key()),
                before + entries.take(i),
            )
        }
}

impl StoreModel {
    /// Whether what is persisted is the index in memory: loading again
    /// would give the same index.
    pub open spec fn durable(self) -> bool {
        self.persisted_index() == Ok::<Map<Seq<u8>, u64>, StoreError>(self.index())
    }

    /// Whether the index agrees with the log: the log scans without error,
    /// and each key of the index is recorded at the offset of the last
    /// record that bears it.
    pub open spec fn consistent(self) -> bool {
        &&& records_from(self.log, 0, self.max_len) is Ok
        &&& agrees(self.index(), records_from(self.log, 0, self.max_len)->Ok_0)
    }

    /// Whether the log is sound: it scans without error, and every index
    /// that it holds agrees with the records in front of it.
    pub open spec fn sound_log(self) -> bool {
        &&& records_from(self.log, 0, self.max_len) is Ok
        &&& index_records_agree(Seq::empty(), records_from(self.log, 0, self.max_len)->Ok_0)
    }

    /// The store as it is when its bytes are opened anew.
    pub open spec fn reopened(self) -> StoreModel {
        StoreModel { entries: Seq::empty(), loaded: false, fault: None, ..self }
    }
}

/// The reserved key is refused by every write, and neither `get` nor `find`
/// answers for it, whatever the state of the store.
pub proof fn law_reserved_key(s: StoreModel, value: Seq<u8>, live: bool)
    ensures
        s.write_result(reserved_key(), value, live) == (
            s,
            Err::<(), StoreError>(StoreError::ReservedKey),
        ),
        s.lookup(reserved_key()) == Err::<Option<Seq<u8>>, StoreError>(StoreError::ReservedKey),
        s.scan_for(reserved_key()) == Err::<Option<(int, Seq<u8>)>, StoreError>(
            StoreError::ReservedKey,
        ),
{
}

/// A write leaves the view that of a store, whether it succeeds or not,
/// and one that succeeds changes the index at its key alone.
pub proof fn law_write_keeps_valid(pre: StoreModel, key: Seq<u8>, value: Seq<u8>, live: bool)
    requires
        pre.valid(),
        pre.log.len() + record_len(key, value) <= usize::MAX,
    ensures
        pre.write_result(key, value, live).0.valid(),
        pre.write_result(key, value, live).1 is Ok ==> pre.write_result(key, value, live).0.index()
            == (if live {
            pre.index().insert(key, pre.log.len() as u64)
        } else {
            pre.index().remove(key)
        }),
{
    lemma_put_entry(pre.entries, key, pre.log.len() as u64);
    lemma_remove_key(pre.entries, key);
    if encodable(key, value, pre.max_len) {
        lemma_record_roundtrip(Seq::empty(), key, value, Seq::empty(), pre.max_len);
    }
}

/// In the embedded layout a write that is not refused succeeds.
pub proof fn law_embedded_write_succeeds(
    pre: StoreModel,
    key: Seq<u8>,
    value: Seq<u8>,
    live: bool,
)
    requires
        pre.layout == Layout::Embedded,
    ensures
        pre.write_result(key, value, live).1 is Ok <==> pre.refusal(key, value) is None,
{
}

/// Round trip, and the last write wins: after `key` was inserted with
/// `value`, `get` gives `value`.
pub proof fn law_insert_then_get(pre: StoreModel, key: Seq<u8>, value: Seq<u8>)
    requires
        pre.valid(),
        pre.write_result(key, value, true).1 is Ok,
    ensures
        pre.write_result(key, value, true).0.lookup(key) == Ok::<Option<Seq<u8>>, StoreError>(
            Some(value),
        ),
{
    let post = pre.write_result(key, value, true).0;
    lemma_put_entry(pre.entries, key, pre.log.len() as u64);
    lemma_record_roundtrip(pre.log, key, value, Seq::empty(), pre.max_len);
    assert(pre.log + record_bytes(key, value) + Seq::<u8>::empty() =~= post.log);
}

/// The last write wins for `find` too: after a write of `key` and `value` to
/// a log that scans without error, `find` gives the offset at which the log
/// ended before, and `value`. This holds of a deletion, whose value is
/// empty, as of an insertion.
pub proof fn law_write_then_find(pre: StoreModel, key: Seq<u8>, value: Seq<u8>, live: bool)
    requires
        records_from(pre.log, 0, pre.max_len) is Ok,
        pre.write_result(key, value, live).1 is Ok,
    ensures
        pre.write_result(key, value, live).0.scan_for(key) == Ok::<
            Option<(int, Seq<u8>)>,
            StoreError,
        >(Some((pre.log.len() as int, value))),
{
    lemma_records_appended(pre.log, 0, pre.max_len, key, value);
}

/// After a key was deleted, `get` gives nothing for it.
pub proof fn law_delete_then_get(pre: StoreModel, key: Seq<u8>)
    requires
        pre.valid(),
        pre.write_result(key, Seq::empty(), false).1 is Ok,
    ensures
        pre.write_result(key, Seq::empty(), false).0.lookup(key) == Ok::<
            Option<Seq<u8>>,
            StoreError,
        >(None),
{
    lemma_remove_key(pre.entries, key);
}

/// A write keeps the index in agreement with the log, whether it points the
/// index at the new record or takes the key out.
pub proof fn law_write_keeps_consistent(pre: StoreModel, key: Seq<u8>, value: Seq<u8>, live: bool)
    requires
        pre.valid(),
        pre.consistent(),
    ensures
        pre.write_result(key, value, live).0.consistent(),
{
    let post = pre.write_result(key, value, live).0;
    if pre.write_result(key, value, live).1 is Ok {
        lemma_put_entry(pre.entries, key, pre.log.len() as u64);
        lemma_remove_key(pre.entries, key);
        lemma_records_appended(pre.log, 0, pre.max_len, key, value);
        let before = records_from(pre.log, 0, pre.max_len)->Ok_0;
        let added = LogEntry { offset: pre.log.len() as int, key, value };
        let now = before.push(added);
        assert(now.drop_last() =~= before);
        assert forall|k: Seq<u8>| #[trigger] post.index().contains_key(k) implies {
            &&& last_with_key(now, k) is Some
            &&& last_with_key(now, k)->Some_0.0 == post.index()[k]
        } by {
            if k != key {
                assert(pre.index().contains_key(k));
            }
        }
    }
}

/// `find` and `get` agree: where the index agrees with the log, `get` gives
/// for each key of the index the value that `find` gives, and `find` gives
/// the offset that the index holds.
pub proof fn law_find_agrees_with_get(s: StoreModel, key: Seq<u8>)
    requires
        s.valid(),
        s.loaded,
        s.consistent(),
        s.index().contains_key(key),
    ensures
        s.scan_for(key) is Ok,
        s.scan_for(key)->Ok_0 is Some,
        s.scan_for(key)->Ok_0->Some_0.0 == s.index()[key],
        s.lookup(key) == Ok::<Option<Seq<u8>>, StoreError>(Some(s.scan_for(key)->Ok_0->Some_0.1)),
{
    let entries = records_from(s.log, 0, s.max_len)->Ok_0;
    assert(s.index().contains_key(key));
    lemma_last_with_key_is_entry(entries, key);
    let i = choose|i: int|
        0 <= i < entries.len() && (#[trigger] entries[i]).key == key && entries[i].offset
            == last_with_key(entries, key)->Some_0.0 && entries[i].value == last_with_key(
            entries,
            key,
        )->Some_0.1;
    lemma_entries_readable(s.log, 0, s.max_len, i);
}

/// A record that holds an index loads as that index, whatever was loaded
/// before it.
pub proof fn lemma_index_record_loads(
    layout: Layout,
    bytes: Seq<u8>,
    index: Map<Seq<u8>, u64>,
    max_len: u64,
    so_far: Map<Seq<u8>, u64>,
)
    requires
        index_record(bytes, index, max_len),
        !index.contains_key(reserved_key()),
    ensures
        loaded_index(layout, bytes, 0, max_len, so_far) == Ok::<Map<Seq<u8>, u64>, StoreError>(
            index,
        ),
{
    let value = choose|value: Seq<u8>|
        #![trigger record_bytes(reserved_key(), value)]
        {
            &&& bytes == record_bytes(reserved_key(), value)
            &&& encodable(reserved_key(), value, max_len)
            &&& bincode_entries(value) is Some
            &&& map_of(bincode_entries(value)->Some_0) == index
        };
    lemma_record_roundtrip(Seq::empty(), reserved_key(), value, Seq::empty(), max_len);
    assert(Seq::<u8>::empty() + record_bytes(reserved_key(), value) + Seq::<u8>::empty()
        =~= bytes);
    assert(record_at(bytes, 0, max_len) == Ok::<(Seq<u8>, Seq<u8>), StoreError>(
        (reserved_key(), value),
    ));
    assert(index.remove(reserved_key()) =~= index);
    let end = record_len(reserved_key(), value);
    assert(end == bytes.len());
    assert(index_after(layout, so_far, 0, reserved_key(), value) == Ok::<
        Map<Seq<u8>, u64>,
        StoreError,
    >(index));
    assert(loaded_index(layout, bytes, end, max_len, index) == Ok::<
        Map<Seq<u8>, u64>,
        StoreError,
    >(index));
}

/// Loading a log to which one record was appended gives what loading the
/// shorter log gave, with that record applied.
pub proof fn lemma_loaded_appended(
    layout: Layout,
    log: Seq<u8>,
    at: int,
    max_len: u64,
    so_far: Map<Seq<u8>, u64>,
    key: Seq<u8>,
    value: Seq<u8>,
)
    requires
        0 <= at <= log.len(),
        loaded_index(layout, log, at, max_len, so_far) is Ok,
        encodable(key, value, max_len),
    ensures
        loaded_index(layout, log + record_bytes(key, value), at, max_len, so_far) == index_after(
            layout,
            loaded_index(layout, log, at, max_len, so_far)->Ok_0,
            log.len() as int,
            key,
            value,
        ),
    decreases log.len() - at,
{
    let longer = log + record_bytes(key, value);
    if at == log.len() {
        lemma_record_roundtrip(log, key, value, Seq::empty(), max_len);
        assert(log + record_bytes(key, value) + Seq::<u8>::empty() =~= longer);
        assert(record_at(longer, at, max_len) == Ok::<(Seq<u8>, Seq<u8>), StoreError>(
            (key, value),
        ));
        let end = at + record_len(key, value);
        assert(end == longer.len());
        let applied = index_after(layout, so_far, at, key, value);
        if applied is Ok {
            assert(loaded_index(layout, longer, end, max_len, applied->Ok_0) == applied);
        }
    } else {
        let first = record_at(log, at, max_len);
        assert(first is Ok);
        lemma_scan_step(log, at, max_len);
        lemma_record_at_extended(log, at, max_len, record_bytes(key, value));
        assert(record_at(longer, at, max_len) == first);
        let next = index_after(layout, so_far, at, first->Ok_0.0, first->Ok_0.1);
        assert(next is Ok);
        lemma_loaded_appended(
            layout,
            log,
            at + record_len(first->Ok_0.0, first->Ok_0.1),
            max_len,
            next->Ok_0,
            key,
            value,
        );
    }
}

/// In the sidecar layout a store whose sidecar holds its index has that
/// index persisted. Every write that succeeds, and every call that persists
/// the index, leaves the sidecar so.
pub proof fn law_sidecar_is_durable(s: StoreModel)
    requires
        s.layout == Layout::Sidecar,
        s.valid(),
        index_record(s.sidecar, s.index(), s.max_len),
    ensures
        s.durable(),
{
    lemma_index_record_loads(Layout::Sidecar, s.sidecar, s.index(), s.max_len, Map::empty());
}

/// In the embedded layout a write to a store whose index is persisted
/// leaves it persisted, where the write is a deletion or an insertion of a
/// value that is not empty: loading applies the new record as the write
/// did.
pub proof fn law_embedded_write_is_durable(pre: StoreModel, key: Seq<u8>, value: Seq<u8>)
    requires
        pre.layout == Layout::Embedded,
        pre.valid(),
        pre.durable(),
    ensures
        pre.write_result(key, value, value.len() > 0).0.durable(),
{
    if pre.refusal(key, value) is None {
        lemma_put_entry(pre.entries, key, pre.log.len() as u64);
        lemma_remove_key(pre.entries, key);
        lemma_loaded_appended(Layout::Embedded, pre.log, 0, pre.max_len, Map::empty(), key, value);
    }
}

/// In the embedded layout a log that loads still loads after a write, so
/// that the index can be persisted at any later time.
pub proof fn law_embedded_write_keeps_loadable(
    pre: StoreModel,
    key: Seq<u8>,
    value: Seq<u8>,
    live: bool,
)
    requires
        pre.layout == Layout::Embedded,
        pre.persisted_index() is Ok,
    ensures
        pre.write_result(key, value, live).0.persisted_index() is Ok,
{
    if pre.refusal(key, value) is None {
        lemma_loaded_appended(Layout::Embedded, pre.log, 0, pre.max_len, Map::empty(), key, value);
    }
}

/// In the embedded layout a record that holds the index, appended to a log
/// that loads, leaves the index persisted. A call that persists the index
/// appends such a record.
pub proof fn law_embedded_index_record_is_durable(pre: StoreModel, record: Seq<u8>)
    requires
        pre.layout == Layout::Embedded,
        pre.valid(),
        pre.persisted_index() is Ok,
        index_record(record, pre.index(), pre.max_len),
    ensures
        (StoreModel { log: pre.log + record, ..pre }).durable(),
{
    let value = choose|value: Seq<u8>|
        #![trigger record_bytes(reserved_key(), value)]
        {
            &&& record == record_bytes(reserved_key(), value)
            &&& encodable(reserved_key(), value, pre.max_len)
            &&& bincode_entries(value) is Some
            &&& map_of(bincode_entries(value)->Some_0) == pre.index()
        };
    lemma_loaded_appended(
        Layout::Embedded,
        pre.log,
        0,
        pre.max_len,
        Map::empty(),
        reserved_key(),
        value,
    );
    assert(pre.index().remove(reserved_key()) =~= pre.index());
}

/// Durability across reopening: where the index is persisted, opening the
/// same bytes anew and loading gives the same index, so that `get` and
/// `find` give for every key what they gave before, and an index that
/// agreed with the log still does.
pub proof fn law_reopen_gives_same_answers(s: StoreModel, again: StoreModel, key: Seq<u8>)
    requires
        s.loaded,
        s.durable(),
        again.loaded_from(s.reopened()),
    ensures
        again.index() == s.index(),
        again.lookup(key) == s.lookup(key),
        again.scan_for(key) == s.scan_for(key),
        s.consistent() ==> again.consistent(),
{
}

/// A log that was repaired scans without error, and a log that scanned
/// without error is not changed by the repair.
pub proof fn law_recovered_log_scans(log: Seq<u8>, max_len: u64)
    ensures
        0 <= good_prefix(log, 0, max_len) <= log.len(),
        records_from(log.take(good_prefix(log, 0, max_len)), 0, max_len) is Ok,
        records_from(log, 0, max_len) is Ok ==> log.take(good_prefix(log, 0, max_len)) == log,
{
    lemma_good_prefix_scans(log, 0, max_len);
    if records_from(log, 0, max_len) is Ok {
        assert(log.take(log.len() as int) =~= log);
    }
}

/// Bytes that load scan without error: in the embedded layout, where
/// `load` has succeeded on a log, `find` does not fail on it.
pub proof fn law_loaded_bytes_scan(
    layout: Layout,
    log: Seq<u8>,
    at: int,
    max_len: u64,
    so_far: Map<Seq<u8>, u64>,
)
    requires
        0 <= at,
        loaded_index(layout, log, at, max_len, so_far) is Ok,
    ensures
        records_from(log, at, max_len) is Ok,
    decreases log.len() - at,
{
    if at < log.len() {
        let first = record_at(log, at, max_len);
        assert(first is Ok);
        lemma_scan_step(log, at, max_len);
        let next = index_after(layout, so_far, at, first->Ok_0.0, first->Ok_0.1);
        assert(next is Ok);
        law_loaded_bytes_scan(
            layout,
            log,
            at + record_len(first->Ok_0.0, first->Ok_0.1),
            max_len,
            next->Ok_0,
        );
    }
}

/// Loading a log whose index records agree with the records in front of
/// them keeps the index in agreement with the records read: where it agreed
/// with those before `at`, the loaded index agrees with all of them.
pub proof fn lemma_load_agrees(
    log: Seq<u8>,
    at: int,
    max_len: u64,
    so_far: Map<Seq<u8>, u64>,
    seen: Seq<LogEntry>,
)
    requires
        0 <= at <= log.len() <= usize::MAX,
        loaded_index(Layout::Embedded, log, at, max_len, so_far) is Ok,
        records_from(log, at, max_len) is Ok,
        index_records_agree(seen, records_from(log, at, max_len)->Ok_0),
        agrees(so_far, seen),
        !so_far.contains_key(reserved_key()),
    ensures
        agrees(
            loaded_index(Layout::Embedded, log, at, max_len, so_far)->Ok_0,
            seen + records_from(log, at, max_len)->Ok_0,
        ),
    decreases log.len() - at,
{
    let rest = records_from(log, at, max_len)->Ok_0;
    if at >= log.len() {
        assert(seen + rest =~= seen);
    } else {
        let first = record_at(log, at, max_len);
        assert(first is Ok);
        lemma_scan_step(log, at, max_len);
        let key = first->Ok_0.0;
        let value = first->Ok_0.1;
        let entry = LogEntry { offset: at, key, value };
        let next_at = at + record_len(key, value);
        let behind = records_from(log, next_at, max_len)->Ok_0;
        assert(rest =~= seq![entry] + behind);
        assert(rest[0] == entry);
        assert(seen + rest.take(0) =~= seen);
        let next = index_after(Layout::Embedded, so_far, at, key, value)->Ok_0;
        let now = seen.push(entry);
        assert(now.drop_last() =~= seen);
        assert(agrees(next, now)) by {
            assert forall|k: Seq<u8>| #[trigger] next.contains_key(k) implies {
                &&& last_with_key(now, k) is Some
                &&& last_with_key(now, k)->Some_0.0 == next[k]
            } by {
                if key != reserved_key() && k != key {
                    assert(so_far.contains_key(k));
                }
            }
        }
        assert(index_records_agree(now, behind)) by {
            assert forall|i: int|
                0 <= i < behind.len() && (#[trigger] behind[i]).key == reserved_key() implies {
                &&& bincode_entries(behind[i].value) is Some
                &&& agrees(
                    map_of(bincode_entries(behind[i].value)->Some_0).remove(reserved_key()),
                    now + behind.take(i),
                )
            } by {
                assert(behind[i] == rest[i + 1]);
                assert(now + behind.take(i) =~= seen + rest.take(i + 1));
            }
        }
        lemma_load_agrees(log, next_at, max_len, next, now);
        assert(now + behind =~= seen + rest);
    }
}

/// In the embedded layout, loading a sound log gives an index that agrees
/// with the log.
pub proof fn law_embedded_load_is_consistent(s: StoreModel, loaded: StoreModel)
    requires
        s.layout == Layout::Embedded,
        s.log.len() <= usize::MAX,
        s.sound_log(),
        loaded.loaded_from(s),
    ensures
        loaded.consistent(),
        loaded.sound_log(),
{
    lemma_load_agrees(s.log, 0, s.max_len, Map::empty(), Seq::empty());
    assert(Seq::<LogEntry>::empty() + records_from(s.log, 0, s.max_len)->Ok_0
        =~= records_from(s.log, 0, s.max_len)->Ok_0);
}

/// A write leaves a sound log sound: the record that it appends is not
/// under the reserved key.
pub proof fn law_write_keeps_log_sound(pre: StoreModel, key: Seq<u8>, value: Seq<u8>, live: bool)
    requires
        pre.sound_log(),
    ensures
        pre.write_result(key, value, live).0.sound_log(),
{
    if pre.write_result(key, value, live).1 is Ok {
        lemma_records_appended(pre.log, 0, pre.max_len, key, value);
        let before = records_from(pre.log, 0, pre.max_len)->Ok_0;
        let now = before.push(LogEntry { offset: pre.log.len() as int, key, value });
        assert forall|i: int|
            0 <= i < now.len() && (#[trigger] now[i]).key == reserved_key() implies {
            &&& bincode_entries(now[i].value) is Some
            &&& agrees(
                map_of(bincode_entries(now[i].value)->Some_0).remove(reserved_key()),
                Seq::<LogEntry>::empty() + now.take(i),
            )
        } by {
            assert(now[i] == before[i]);
            assert(now.take(i) =~= before.take(i));
        }
    }
}

/// In the embedded layout, persisting the index of a store whose index
/// agrees with its sound log leaves the log sound and the index in
/// agreement with it.
pub proof fn law_embedded_index_record_keeps_sound(pre: StoreModel, record: Seq<u8>)
    requires
        pre.valid(),
        pre.consistent(),
        pre.sound_log(),
        index_record(record, pre.index(), pre.max_len),
    ensures
        (StoreModel { log: pre.log + record, ..pre }).sound_log(),
        (StoreModel { log: pre.log + record, ..pre }).consistent(),
{
    let value = choose|value: Seq<u8>|
        #![trigger record_bytes(reserved_key(), value)]
        {
            &&& record == record_bytes(reserved_key(), value)
            &&& encodable(reserved_key(), value, pre.max_len)
            &&& bincode_entries(value) is Some
            &&& map_of(bincode_entries(value)->Some_0) == pre.index()
        };
    lemma_records_appended(pre.log, 0, pre.max_len, reserved_key(), value);
    let before = records_from(pre.log, 0, pre.max_len)->Ok_0;
    let added = LogEntry { offset: pre.log.len() as int, key: reserved_key(), value };
    let now = before.push(added);
    assert(now.drop_last() =~= before);
    assert(pre.index().remove(reserved_key()) =~= pre.index());
    assert forall|i: int| 0 <= i < now.len() && (#[trigger] now[i]).key == reserved_key() implies {
        &&& bincode_entries(now[i].value) is Some
        &&& agrees(
            map_of(bincode_entries(now[i].value)->Some_0).remove(reserved_key()),
            Seq::<LogEntry>::empty() + now.take(i),
        )
    } by {
        if i < before.len() {
            assert(now[i] == before[i]);
            assert(now.take(i) =~= before.take(i));
        } else {
            assert(now.take(i) =~= before);
            assert(Seq::<LogEntry>::empty() + before =~= before);
        }
    }
    assert forall|k: Seq<u8>| #[trigger] pre.index().contains_key(k) implies {
        &&& last_with_key(now, k) is Some
        &&& last_with_key(now, k)->Some_0.0 == pre.index()[k]
    } by {
        assert(k != reserved_key());
    }
}

/// A corrupt checksum is detected: where the index points at a record that
/// reads, and the four bytes of its checksum are overwritten with others,
/// `get` fails with `Corruption`.
pub proof fn law_corrupt_checksum_is_detected(s: StoreModel, key: Seq<u8>, field: Seq<u8>)
    requires
        s.loaded,
        key != reserved_key(),
        s.index().contains_key(key),
        s.read_at(s.index()[key]) is Ok,
        field.len() == 4,
        field != s.log.subrange(s.index()[key] as int, s.index()[key] + 4),
    ensures
        (StoreModel {
            log: s.log.subrange(0, s.index()[key] as int) + field + s.log.subrange(
                s.index()[key] + 4,
                s.log.len() as int,
            ),
            ..s
        }).lookup(key) == Err::<Option<Seq<u8>>, StoreError>(StoreError::Corruption),
{
    lemma_checksum_field_guards(s.log, s.index()[key] as int, s.max_len, field);
}

} // verus!
