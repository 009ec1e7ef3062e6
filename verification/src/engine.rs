//! The engine: a log, an index, and the rules that keep the two together.
//!
//! A store has one of two layouts. In the sidecar layout the index is kept in
//! a second sequence of bytes, rewritten after every change. In the embedded
//! layout the index is appended to the log itself, under the reserved key,
//! whenever the caller asks for it; loading scans the log, takes the last
//! such record as the index and applies the records behind it.
//!
//! What goes through the index fails with `NotLoaded` before `load`: `get`,
//! the writes, and persisting the index. `find` and `get_at` read the log
//! alone and work in every state. After a read has met `Corruption`,
//! `TruncatedRecord` or `IndexDesync`, writes fail with that error until
//! `acknowledge` or `recover` is called.

use crate::index::bincode_bytes;
use crate::index::bincode_entries;
use crate::index::distinct_keys;
use crate::index::index_key;
use crate::index::is_reserved;
use crate::index::lemma_put_entry;
use crate::index::lemma_remove_key;
use crate::index::map_of;
use crate::index::put_entry;
use crate::index::remove_entry;
use crate::index::reserved_key;
use crate::index::Index;
use crate::log::append_record;
use crate::log::find_record;
use crate::log::good_prefix;
use crate::log::last_good_offset;
use crate::log::last_with_key;
use crate::log::lemma_scan_step;
use crate::log::records_from;
use crate::record::decode_record;
use crate::record::encodable;
use crate::record::encode_record;
use crate::record::record_at;
use crate::record::record_bytes;
use crate::record::record_len;
use crate::record::KeyValuePair;
use crate::record::StoreError;
use crate::record::HEADER_LEN;
use vstd::prelude::*;

verus! {

/// Where a store keeps its persisted index.
#[derive(Clone, Copy, Debug, PartialEq, Eq, Structural)]
pub enum Layout {
    /// In the log, as records under the reserved key.
    Embedded,
    /// In bytes of its own, as one record.
    Sidecar,
}

/// The limit on the two lengths of a record that `open` and `open_embedded`
/// set.
pub const DEFAULT_MAX_LEN: u64 = 0xFFFF_FFFF;

/// What a store is, as far as its operations can tell.
pub struct StoreModel {
    /// The bytes of the log.
    pub log: Seq<u8>,
    /// The bytes that hold the index in the sidecar layout.
    pub sidecar: Seq<u8>,
    /// The entries of the index in memory, in the order in which they are
    /// kept and written.
    pub entries: Seq<(Seq<u8>, u64)>,
    pub layout: Layout,
    /// Whether `load` has succeeded.
    pub loaded: bool,
    /// The error after which writes are refused, if there is one.
    pub fault: Option<StoreError>,
    /// The limit on the two lengths of a record.
    pub max_len: u64,
}

/// Whether `e` leaves the store untrustworthy.
pub open spec fn is_fault(e: StoreError) -> bool {
    e == StoreError::Corruption || e == StoreError::TruncatedRecord || e == StoreError::IndexDesync
}

/// The record in which `entries` are persisted under the limit `max_len`,
/// or why there is none: `MalformedIndex` where `bincode` does not write
/// them, `OversizedRecord` where what it writes does not fit a record.
pub open spec fn persisted_record(entries: Seq<(Seq<u8>, u64)>, max_len: u64) -> Result<
    Seq<u8>,
    StoreError,
> {
    match bincode_bytes(entries) {
        Some(value) => if encodable(reserved_key(), value, max_len) {
            Ok(record_bytes(reserved_key(), value))
        } else {
            Err(StoreError::OversizedRecord)
        },
        None => Err(StoreError::MalformedIndex),
    }
}

impl StoreModel {
    /// The index in memory: the map from keys to offsets that the entries
    /// stand for.
    pub open spec fn index(self) -> Map<Seq<u8>, u64> {
        map_of(self.entries)
    }

    /// The store with `e` recorded, where `e` leaves it untrustworthy.
    pub open spec fn noted(self, e: StoreError) -> StoreModel {
        if is_fault(e) {
            StoreModel { fault: Some(e), ..self }
        } else {
            self
        }
    }

    /// The store as it is after a read that ended in `outcome`.
    pub open spec fn after<T>(self, outcome: Result<T, StoreError>) -> StoreModel {
        match outcome {
            Ok(_) => self,
            Err(e) => self.noted(e),
        }
    }

    /// Whether the view is that of a store: the log is no longer than a
    /// vector can be, no key occurs twice among the entries, and the
    /// reserved key is not among them.
    pub open spec fn valid(self) -> bool {
        &&& self.log.len() <= usize::MAX
        &&& distinct_keys(self.entries)
        &&& !self.index().contains_key(reserved_key())
    }

    /// The bytes from which `load` reads the index.
    pub open spec fn source(self) -> Seq<u8> {
        match self.layout {
            Layout::Sidecar => self.sidecar,
            Layout::Embedded => self.log,
        }
    }

    /// The index that `load` gives, or the error that it ends in.
    pub open spec fn persisted_index(self) -> Result<Map<Seq<u8>, u64>, StoreError> {
        loaded_index(self.layout, self.source(), 0, self.max_len, Map::empty())
    }

    /// Whether this is `pre` after a `load` that succeeded: the index is
    /// the one that was persisted, and nothing else has changed.
    pub open spec fn loaded_from(self, pre: StoreModel) -> bool {
        &&& self == (StoreModel { entries: self.entries, loaded: true, ..pre })
        &&& pre.persisted_index() == Ok::<Map<Seq<u8>, u64>, StoreError>(self.index())
    }

    /// What `get_at` gives for `offset`.
    pub open spec fn read_at(self, offset: u64) -> Result<(Seq<u8>, Seq<u8>), StoreError> {
        record_at(self.log, offset as int, self.max_len)
    }

    /// What `get` gives for `key`. An index that points at a record of
    /// another key, or behind the end of the log, is out of step with the
    /// log: `IndexDesync`.
    pub open spec fn lookup(self, key: Seq<u8>) -> Result<Option<Seq<u8>>, StoreError> {
        if key == reserved_key() {
            Err(StoreError::ReservedKey)
        } else if !self.loaded {
            Err(StoreError::NotLoaded)
        } else if !self.index().contains_key(key) {
            Ok(None)
        } else {
            match self.read_at(self.index()[key]) {
                Ok((stored_key, value)) => if stored_key == key {
                    Ok(Some(value))
                } else {
                    Err(StoreError::IndexDesync)
                },
                Err(StoreError::EndOfStream) => Err(StoreError::IndexDesync),
                Err(e) => Err(e),
            }
        }
    }

    /// What `find` gives for `key`.
    pub open spec fn scan_for(self, key: Seq<u8>) -> Result<Option<(int, Seq<u8>)>, StoreError> {
        if key == reserved_key() {
            Err(StoreError::ReservedKey)
        } else {
            match records_from(self.log, 0, self.max_len) {
                Ok(entries) => Ok(last_with_key(entries, key)),
                Err(e) => Err(e),
            }
        }
    }

    /// Why a write of `key` and `value` is refused, if it is.
    pub open spec fn refusal(self, key: Seq<u8>, value: Seq<u8>) -> Option<StoreError> {
        if key == reserved_key() {
            Some(StoreError::ReservedKey)
        } else if !self.loaded {
            Some(StoreError::NotLoaded)
        } else if self.fault is Some {
            self.fault
        } else if !encodable(key, value, self.max_len) {
            Some(StoreError::OversizedRecord)
        } else {
            None
        }
    }

    /// The entries that a write for `key` aims at: the key at the end of
    /// the log where `live`, the key taken out where not.
    pub open spec fn target(self, key: Seq<u8>, live: bool) -> Seq<(Seq<u8>, u64)> {
        if live {
            put_entry(self.entries, key, self.log.len() as u64)
        } else {
            remove_entry(self.entries, key)
        }
    }

    /// The store after a write of `key` and `value`, and what the write
    /// returns.
    ///
    /// A write that is refused changes nothing. One that is not appends
    /// the record and brings the entries to their target. In the sidecar
    /// layout it first persists the target, and changes nothing where that
    /// fails.
    pub open spec fn write_result(self, key: Seq<u8>, value: Seq<u8>, live: bool) -> (
        StoreModel,
        Result<(), StoreError>,
    ) {
        match self.refusal(key, value) {
            Some(e) => (self, Err(e)),
            None => match self.layout {
                Layout::Embedded => (
                    StoreModel {
                        log: self.log + record_bytes(key, value),
                        entries: self.target(key, live),
                        ..self
                    },
                    Ok(()),
                ),
                Layout::Sidecar => match persisted_record(self.target(key, live), self.max_len) {
                    Ok(sidecar) => (
                        StoreModel {
                            log: self.log + record_bytes(key, value),
                            entries: self.target(key, live),
                            sidecar,
                            ..self
                        },
                        Ok(()),
                    ),
                    Err(e) => (self, Err(e)),
                },
            },
        }
    }

    /// The store after its index was persisted, and what persisting
    /// returns: in the sidecar layout the record takes the place of what
    /// the sidecar held, in the embedded layout it is appended to the log.
    pub open spec fn store_result(self) -> (StoreModel, Result<(), StoreError>) {
        if !self.loaded {
            (self, Err(StoreError::NotLoaded))
        } else if self.fault is Some {
            (self, Err(self.fault->Some_0))
        } else {
            match persisted_record(self.entries, self.max_len) {
                Ok(record) => match self.layout {
                    Layout::Sidecar => (StoreModel { sidecar: record, ..self }, Ok(())),
                    Layout::Embedded => (StoreModel { log: self.log + record, ..self }, Ok(())),
                },
                Err(e) => (self, Err(e)),
            }
        }
    }
}

/// The index after one record was read while loading. In the sidecar layout
/// every record holds an index. In the embedded layout a record under the
/// reserved key holds one, a record with an empty value takes its key out,
/// and any other record puts its key in at the record's offset.
pub open spec fn index_after(
    layout: Layout,
    so_far: Map<Seq<u8>, u64>,
    at: int,
    key: Seq<u8>,
    value: Seq<u8>,
) -> Result<Map<Seq<u8>, u64>, StoreError> {
    if layout == Layout::Sidecar || key == reserved_key() {
        match bincode_entries(value) {
            Some(entries) => Ok(map_of(entries).remove(reserved_key())),
            None => Err(StoreError::MalformedIndex),
        }
    } else if value.len() == 0 {
        Ok(so_far.remove(key))
    } else {
        Ok(so_far.insert(key, at as u64))
    }
}

/// The index that loading gives when it has read `bytes` up to `at` and
/// holds `so_far`.
pub open spec fn loaded_index(
    layout: Layout,
    bytes: Seq<u8>,
    at: int,
    max_len: u64,
    so_far: Map<Seq<u8>, u64>,
) -> Result<Map<Seq<u8>, u64>, StoreError>
    decreases bytes.len() - at,
{
    if at < 0 || at >= bytes.len() {
        Ok(so_far)
    } else {
        match record_at(bytes, at, max_len) {
            Ok((key, value)) => match index_after(layout, so_far, at, key, value) {
                Ok(next) => loaded_index(layout, bytes, at + record_len(key, value), max_len, next),
                Err(e) => Err(e),
            },
            Err(e) => Err(e),
        }
    }
}

/// Whether `bytes` are one record under the reserved key whose value
/// `bincode` reads as entries that stand for `index`.
pub open spec fn index_record(bytes: Seq<u8>, index: Map<Seq<u8>, u64>, max_len: u64) -> bool {
    exists|value: Seq<u8>|
        #![trigger record_bytes(reserved_key(), value)]
        {
            &&& bytes == record_bytes(reserved_key(), value)
            &&& encodable(reserved_key(), value, max_len)
            &&& bincode_entries(value) is Some
            &&& map_of(bincode_entries(value)->Some_0) == index
        }
}

/// The record that holds a serialized index, or why there is none: no bytes
/// where the index did not serialize, a record too long where the bytes do
/// not fit under the limit.
pub fn sidecar_record(serialized: Option<Vec<u8>>, max_len: u64) -> (r: Result<Vec<u8>, StoreError>)
    ensures
        match serialized {
            None => r matches Err(e) && e == StoreError::MalformedIndex,
            Some(value) => if encodable(reserved_key(), value@, max_len) {
                r matches Ok(bytes) && bytes@ == record_bytes(reserved_key(), value@)
            } else {
                r matches Err(e) && e == StoreError::OversizedRecord
            },
        },
{
    match serialized {
        None => Err(StoreError::MalformedIndex),
        Some(value) => {
            let key = index_key();
            encode_record(key.as_slice(), value.as_slice(), max_len)
        },
    }
}

/// The record in which `index` is persisted, or why there is none. A record
/// that is given holds the index: `bincode` reads its value back as the
/// entries of the index.
pub fn persist(index: &Index, max_len: u64) -> (r: Result<Vec<u8>, StoreError>)
    ensures
        match persisted_record(index.pairs(), max_len) {
            Ok(record) => r matches Ok(bytes) && bytes@ == record && index_record(
                record,
                index@,
                max_len,
            ),
            Err(e) => r matches Err(x) && x == e,
        },
{
    let serialized = index.serialize();
    proof {
        if serialized is Some && encodable(reserved_key(), serialized->Some_0@, max_len) {
            // The serialized bytes are the value by which the record holds
            // the index.
            let value = serialized->Some_0@;
            assert(index_record(record_bytes(reserved_key(), value), index@, max_len));
        }
    }
    sidecar_record(serialized, max_len)
}

/// Applies one record that was read while loading to `index`.
pub fn apply_record(layout: Layout, index: &mut Index, at: u64, pair: &KeyValuePair) -> (r: Result<
    (),
    StoreError,
>)
    requires
        old(index).wf(),
        !old(index)@.contains_key(reserved_key()),
    ensures
        final(index).wf(),
        !final(index)@.contains_key(reserved_key()),
        match index_after(layout, old(index)@, at as int, pair.key@, pair.value@) {
            Ok(next) => r is Ok && final(index)@ == next,
            Err(e) => r == Err::<(), StoreError>(e) && final(index)@ == old(index)@,
        },
{
    let every_record_is_index = match layout {
        Layout::Sidecar => true,
        Layout::Embedded => false,
    };
    if every_record_is_index || is_reserved(pair.key.as_slice()) {
        match Index::deserialize(pair.value.as_slice()) {
            Some(decoded) => {
                let mut decoded = decoded;
                let key = index_key();
                decoded.remove(key.as_slice());
                *index = decoded;
                Ok(())
            },
            None => Err(StoreError::MalformedIndex),
        }
    } else if pair.value.len() == 0 {
        index.remove(pair.key.as_slice());
        Ok(())
    } else {
        index.put(pair.key.as_slice(), at);
        Ok(())
    }
}

/// A key-value store over a log of records.
#[derive(Debug)]
pub struct ActionKV {
    data: Vec<u8>,
    sidecar: Vec<u8>,
    index: Index,
    layout: Layout,
    loaded: bool,
    fault: Option<StoreError>,
    max_len: u64,
}

impl ActionKV {
    /// What the store is, as far as its operations can tell.
    pub closed spec fn view(&self) -> StoreModel {
        StoreModel {
            log: self.data@,
            sidecar: self.sidecar@,
            entries: self.index.pairs(),
            layout: self.layout,
            loaded: self.loaded,
            fault: self.fault,
            max_len: self.max_len,
        }
    }

    /// Whether the store is well formed: its view is that of a store.
    pub closed spec fn wf(&self) -> bool {
        self@.valid()
    }

    /// A well-formed store has a valid view.
    pub proof fn lemma_wf_valid(&self)
        requires
            self.wf(),
        ensures
            self@.valid(),
    {
    }

    /// A store over the bytes of a log and, in the sidecar layout, the bytes
    /// that hold its index. The index is empty until `load` is called.
    pub fn new(layout: Layout, data: Vec<u8>, sidecar: Vec<u8>, max_len: u64) -> (store: ActionKV)
        ensures
            store.wf(),
            store@ == (StoreModel {
                log: data@,
                sidecar: sidecar@,
                entries: Seq::empty(),
                layout,
                loaded: false,
                fault: None,
                max_len,
            }),
    {
        // A vector says of its length that it fits a `usize` where it is asked.
        let len: usize = data.len();
        ActionKV { data, sidecar, index: Index::new(), layout, loaded: false, fault: None, max_len }
    }

    /// A store in the sidecar layout over the bytes of its two files, with
    /// the default limit.
    pub fn open(data: Vec<u8>, index: Vec<u8>) -> (store: ActionKV)
        ensures
            store.wf(),
            store@ == (StoreModel {
                log: data@,
                sidecar: index@,
                entries: Seq::empty(),
                layout: Layout::Sidecar,
                loaded: false,
                fault: None,
                max_len: DEFAULT_MAX_LEN,
            }),
    {
        ActionKV::new(Layout::Sidecar, data, index, DEFAULT_MAX_LEN)
    }

    /// A store in the embedded layout over the bytes of its one file, with
    /// the default limit.
    pub fn open_embedded(data: Vec<u8>) -> (store: ActionKV)
        ensures
            store.wf(),
            store@ == (StoreModel {
                log: data@,
                sidecar: Seq::empty(),
                entries: Seq::empty(),
                layout: Layout::Embedded,
                loaded: false,
                fault: None,
                max_len: DEFAULT_MAX_LEN,
            }),
    {
        ActionKV::new(Layout::Embedded, data, Vec::new(), DEFAULT_MAX_LEN)
    }

    /// The bytes of the log.
    pub fn data(&self) -> (bytes: &[u8])
        ensures
            bytes@ == self@.log,
    {
        self.data.as_slice()
    }

    /// The bytes that hold the index in the sidecar layout.
    pub fn index_file(&self) -> (bytes: &[u8])
        ensures
            bytes@ == self@.sidecar,
    {
        self.sidecar.as_slice()
    }

    /// The index in memory.
    pub fn index(&self) -> (index: &Index)
        requires
            self.wf(),
        ensures
            index.wf(),
            index.pairs() == self@.entries,
            index@ == self@.index(),
    {
        &self.index
    }

    /// The layout of the store.
    pub fn layout(&self) -> (layout: Layout)
        ensures
            layout == self@.layout,
    {
        self.layout
    }

    /// The limit on the two lengths of a record.
    pub fn max_len(&self) -> (max_len: u64)
        ensures
            max_len == self@.max_len,
    {
        self.max_len
    }

    /// Whether `load` has succeeded.
    pub fn is_loaded(&self) -> (loaded: bool)
        ensures
            loaded == self@.loaded,
    {
        self.loaded
    }

    /// The error after which writes are refused, if there is one.
    pub fn fault(&self) -> (fault: Option<StoreError>)
        ensures
            fault == self@.fault,
    {
        self.fault
    }

    /// Lets writes go on after an error that left the store untrustworthy.
    pub fn acknowledge(&mut self)
        requires
            old(self).wf(),
        ensures
            final(self).wf(),
            final(self)@ == (StoreModel { fault: None, ..old(self)@ }),
    {
        self.fault = None;
    }

    /// Records `e` where it leaves the store untrustworthy.
    fn note(&mut self, e: StoreError)
        requires
            old(self).wf(),
        ensures
            final(self).wf(),
            final(self)@ == old(self)@.noted(e),
    {
        match e {
            StoreError::Corruption => {
                self.fault = Some(e);
            },
            StoreError::TruncatedRecord => {
                self.fault = Some(e);
            },
            StoreError::IndexDesync => {
                self.fault = Some(e);
            },
            _ => {},
        }
    }

    /// Reads the record at `offset` of the log, whatever the index says.
    pub fn get_at(&self, offset: u64) -> (r: Result<KeyValuePair, StoreError>)
        ensures
            match r {
                Ok(pair) => self@.read_at(offset) == Ok::<(Seq<u8>, Seq<u8>), StoreError>(
                    (pair.key@, pair.value@),
                ),
                Err(e) => self@.read_at(offset) == Err::<(Seq<u8>, Seq<u8>), StoreError>(e),
            },
    {
        decode_record(self.data.as_slice(), offset, self.max_len)
    }

    /// The value that the index points at for `key`, or `None` where the
    /// index does not hold the key.
    pub fn get(&mut self, key: &[u8]) -> (r: Result<Option<Vec<u8>>, StoreError>)
        requires
            old(self).wf(),
        ensures
            final(self).wf(),
            match r {
                Ok(Some(value)) => old(self)@.lookup(key@) == Ok::<Option<Seq<u8>>, StoreError>(
                    Some(value@),
                ),
                Ok(None) => old(self)@.lookup(key@) == Ok::<Option<Seq<u8>>, StoreError>(None),
                Err(e) => old(self)@.lookup(key@) == Err::<Option<Seq<u8>>, StoreError>(e),
            },
            final(self)@ == old(self)@.after(r),
    {
        if is_reserved(key) {
            return Err(StoreError::ReservedKey);
        }
        if !self.loaded {
            return Err(StoreError::NotLoaded);
        }
        match self.index.get(key) {
            None => Ok(None),
            Some(offset) => match self.get_at(offset) {
                Ok(pair) => {
                    if crate::log::bytes_equal(pair.key.as_slice(), key) {
                        Ok(Some(pair.value))
                    } else {
                        self.note(StoreError::IndexDesync);
                        Err(StoreError::IndexDesync)
                    }
                },
                Err(e) => {
                    let e = match e {
                        StoreError::EndOfStream => StoreError::IndexDesync,
                        _ => e,
                    };
                    self.note(e);
                    Err(e)
                },
            },
        }
    }

    /// The last record of the log that bears `key`, with its offset, found
    /// by a scan of the whole log. A record with an empty value is found
    /// like any other.
    pub fn find(&mut self, key: &[u8]) -> (r: Result<Option<(u64, Vec<u8>)>, StoreError>)
        requires
            old(self).wf(),
        ensures
            final(self).wf(),
            match r {
                Ok(Some(hit)) => old(self)@.scan_for(key@) == Ok::<
                    Option<(int, Seq<u8>)>,
                    StoreError,
                >(Some((hit.0 as int, hit.1@))),
                Ok(None) => old(self)@.scan_for(key@) == Ok::<Option<(int, Seq<u8>)>, StoreError>(
                    None,
                ),
                Err(e) => old(self)@.scan_for(key@) == Err::<Option<(int, Seq<u8>)>, StoreError>(e),
            },
            final(self)@ == old(self)@.after(r),
    {
        if is_reserved(key) {
            return Err(StoreError::ReservedKey);
        }
        match find_record(self.data.as_slice(), key, self.max_len) {
            Ok(found) => Ok(found),
            Err(e) => {
                self.note(e);
                Err(e)
            },
        }
    }

    /// Fills the index from what was persisted: in the sidecar layout from the
    /// records of the sidecar, of which the last counts; in the embedded
    /// layout from a scan of the log. Loading again reads again.
    pub fn load(&mut self) -> (r: Result<(), StoreError>)
        requires
            old(self).wf(),
        ensures
            final(self).wf(),
            match old(self)@.persisted_index() {
                Ok(_) => r is Ok && final(self)@.loaded_from(old(self)@),
                Err(e) => r == Err::<(), StoreError>(e) && final(self)@ == old(self)@.noted(e),
            },
    {
        let mut index = Index::new();
        let mut position: u64 = 0;
        let layout = self.layout;
        let max_len = self.max_len;
        let log_len: usize = self.data.len();
        let sidecar_len: usize = self.sidecar.len();
        loop
            invariant
                self.wf(),
                *self == *old(self),
                layout == self.layout,
                max_len == self.max_len,
                index.wf(),
                !index@.contains_key(reserved_key()),
                position <= self@.source().len(),
                self@.source().len() <= usize::MAX,
                loaded_index(layout, self@.source(), 0, max_len, Map::empty()) == loaded_index(
                    layout,
                    self@.source(),
                    position as int,
                    max_len,
                    index@,
                ),
            decreases self@.source().len() - position,
        {
            let source: &[u8] = match layout {
                Layout::Sidecar => self.sidecar.as_slice(),
                Layout::Embedded => self.data.as_slice(),
            };
            match decode_record(source, position, max_len) {
                Ok(pair) => {
                    proof {
                        lemma_scan_step(source@, position as int, max_len);
                    }
                    match apply_record(layout, &mut index, position, &pair) {
                        Ok(_) => {
                            position = position + HEADER_LEN as u64 + pair.key.len() as u64
                                + pair.value.len() as u64;
                        },
                        Err(e) => {
                            return Err(e);
                        },
                    }
                },
                Err(e) => {
                    if e == StoreError::EndOfStream {
                        self.index = index;
                        self.loaded = true;
                        return Ok(());
                    }
                    self.note(e);
                    return Err(e);
                },
            }
        }
    }

    /// Appends the record of `key` and `value` and brings the index to
    /// `key`'s new state: pointing at the record where `live`, absent where
    /// not. In the sidecar layout the new index is persisted before anything
    /// is changed.
    fn write(&mut self, key: &[u8], value: &[u8], live: bool) -> (r: Result<(), StoreError>)
        requires
            old(self).wf(),
        ensures
            final(self).wf(),
            (final(self)@, r) == old(self)@.write_result(key@, value@, live),
            r is Ok && old(self)@.layout == Layout::Sidecar ==> index_record(
                final(self)@.sidecar,
                final(self)@.index(),
                final(self)@.max_len,
            ),
    {
        if is_reserved(key) {
            return Err(StoreError::ReservedKey);
        }
        if !self.loaded {
            return Err(StoreError::NotLoaded);
        }
        match self.fault {
            Some(e) => {
                return Err(e);
            },
            None => {},
        }
        let record = match encode_record(key, value, self.max_len) {
            Ok(bytes) => bytes,
            Err(e) => {
                return Err(e);
            },
        };
        let offset: u64 = self.data.len() as u64;
        proof {
            if live {
                lemma_put_entry(self.index.pairs(), key@, offset);
            } else {
                lemma_remove_key(self.index.pairs(), key@);
            }
        }
        match self.layout {
            Layout::Embedded => {
                if live {
                    self.index.put(key, offset);
                } else {
                    self.index.remove(key);
                }
            },
            Layout::Sidecar => {
                let mut candidate = self.index.duplicate();
                if live {
                    candidate.put(key, offset);
                } else {
                    candidate.remove(key);
                }
                match persist(&candidate, self.max_len) {
                    Ok(bytes) => {
                        self.index = candidate;
                        self.sidecar = bytes;
                    },
                    Err(e) => {
                        return Err(e);
                    },
                }
            },
        }
        append_record(&mut self.data, record.as_slice());
        let len: usize = self.data.len();
        Ok(())
    }

    /// Appends a record for `key` and `value` and points the index at it.
    /// A value may be empty.
    pub fn insert(&mut self, key: &[u8], value: &[u8]) -> (r: Result<(), StoreError>)
        requires
            old(self).wf(),
        ensures
            final(self).wf(),
            (final(self)@, r) == old(self)@.write_result(key@, value@, true),
            r is Ok && old(self)@.layout == Layout::Sidecar ==> index_record(
                final(self)@.sidecar,
                final(self)@.index(),
                final(self)@.max_len,
            ),
    {
        self.write(key, value, true)
    }

    /// The same as `insert`.
    pub fn update(&mut self, key: &[u8], value: &[u8]) -> (r: Result<(), StoreError>)
        requires
            old(self).wf(),
        ensures
            final(self).wf(),
            (final(self)@, r) == old(self)@.write_result(key@, value@, true),
            r is Ok && old(self)@.layout == Layout::Sidecar ==> index_record(
                final(self)@.sidecar,
                final(self)@.index(),
                final(self)@.max_len,
            ),
    {
        self.insert(key, value)
    }

    /// Appends a record with an empty value for `key` and takes the key out
    /// of the index.
    pub fn delete(&mut self, key: &[u8]) -> (r: Result<(), StoreError>)
        requires
            old(self).wf(),
        ensures
            final(self).wf(),
            (final(self)@, r) == old(self)@.write_result(key@, Seq::empty(), false),
            r is Ok && old(self)@.layout == Layout::Sidecar ==> index_record(
                final(self)@.sidecar,
                final(self)@.index(),
                final(self)@.max_len,
            ),
    {
        let nothing: Vec<u8> = Vec::new();
        self.write(key, nothing.as_slice(), false)
    }

    /// Persists the index: in the sidecar layout in place of what the
    /// sidecar held, in the embedded layout as a record at the end of the
    /// log.
    pub fn store_index_on_disk(&mut self) -> (r: Result<(), StoreError>)
        requires
            old(self).wf(),
        ensures
            final(self).wf(),
            (final(self)@, r) == old(self)@.store_result(),
            r is Ok ==> index_record(
                persisted_record(old(self)@.entries, old(self)@.max_len)->Ok_0,
                old(self)@.index(),
                old(self)@.max_len,
            ),
    {
        if !self.loaded {
            return Err(StoreError::NotLoaded);
        }
        match self.fault {
            Some(e) => {
                return Err(e);
            },
            None => {},
        }
        match persist(&self.index, self.max_len) {
            Ok(bytes) => {
                match self.layout {
                    Layout::Sidecar => {
                        self.sidecar = bytes;
                    },
                    Layout::Embedded => {
                        append_record(&mut self.data, bytes.as_slice());
                        let len: usize = self.data.len();
                    },
                }
                Ok(())
            },
            Err(e) => Err(e),
        }
    }

    /// Repairs a log that does not scan to its end: cuts it behind the last
    /// record that reads and says how many bytes were cut. The index is
    /// forgotten and the recorded error with it, so that the store is as if
    /// opened anew on the shorter log.
    pub fn recover(&mut self) -> (discarded: u64)
        requires
            old(self).wf(),
        ensures
            final(self).wf(),
            final(self)@ == (StoreModel {
                log: old(self)@.log.take(good_prefix(old(self)@.log, 0, old(self)@.max_len)),
                entries: Seq::empty(),
                loaded: false,
                fault: None,
                ..old(self)@
            }),
            discarded == old(self)@.log.len() - good_prefix(
                old(self)@.log,
                0,
                old(self)@.max_len,
            ),
    {
        let len: usize = self.data.len();
        let keep: u64 = last_good_offset(self.data.as_slice(), self.max_len);
        self.data.truncate(keep as usize);
        self.index = Index::new();
        self.loaded = false;
        self.fault = None;
        assert(self.data@ =~= old(self).data@.take(keep as int));
        len as u64 - keep
    }
}

} // verus!
