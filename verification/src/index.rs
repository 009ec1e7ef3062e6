//! The index: which offset holds the most recent record of each key.
//!
//! The entries are kept in a vector in which no key occurs twice. The index
//! is viewed as the map from keys to offsets that those entries stand for.

use crate::log::bytes_equal;
use vstd::prelude::*;
use vstd::slice::slice_to_vec;

verus! {

/// The key under which a persisted index is written: `+index`.
pub open spec fn reserved_key() -> Seq<u8> {
    seq![43u8, 105u8, 110u8, 100u8, 101u8, 120u8]
}

/// The reserved key as bytes.
pub fn index_key() -> (key: Vec<u8>)
    ensures
        key@ == reserved_key(),
{
    let mut key: Vec<u8> = Vec::new();
    key.push(43);
    key.push(105);
    key.push(110);
    key.push(100);
    key.push(101);
    key.push(120);
    assert(key@ =~= reserved_key());
    key
}

/// Whether `key` is the reserved key.
pub fn is_reserved(key: &[u8]) -> (reserved: bool)
    ensures
        reserved == (key@ == reserved_key()),
{
    let expected = index_key();
    bytes_equal(key, expected.as_slice())
}

/// The map that a list of entries stands for. Where a key occurs more than
/// once, the entry that comes last counts.
pub open spec fn map_of(entries: Seq<(Seq<u8>, u64)>) -> Map<Seq<u8>, u64>
    decreases entries.len(),
{
    if entries.len() == 0 {
        Map::empty()
    } else {
        map_of(entries.drop_last()).insert(entries.last().0, entries.last().1)
    }
}

/// Whether no key occurs twice in `entries`.
pub open spec fn distinct_keys(entries: Seq<(Seq<u8>, u64)>) -> bool {
    forall|i: int, j: int|
        0 <= i < j < entries.len() ==> (#[trigger] entries[i]).0 != (#[trigger] entries[j]).0
}

/// Whether one of `entries` bears `key`.
pub open spec fn has_key(entries: Seq<(Seq<u8>, u64)>, key: Seq<u8>) -> bool {
    exists|i: int| 0 <= i < entries.len() && (#[trigger] entries[i]).0 == key
}

/// Where in `entries` the entry of `key` stands, for a key that has one.
pub open spec fn key_position(entries: Seq<(Seq<u8>, u64)>, key: Seq<u8>) -> int {
    choose|i: int| 0 <= i < entries.len() && (#[trigger] entries[i]).0 == key
}

/// The entries after `offset` was recorded for `key`: written over the
/// entry of the key where it has one, added at the end where it has none.
pub open spec fn put_entry(entries: Seq<(Seq<u8>, u64)>, key: Seq<u8>, offset: u64) -> Seq<
    (Seq<u8>, u64),
> {
    if has_key(entries, key) {
        entries.update(key_position(entries, key), (key, offset))
    } else {
        entries.push((key, offset))
    }
}

/// The entries after the entry of `key` was taken out, if it had one.
pub open spec fn remove_entry(entries: Seq<(Seq<u8>, u64)>, key: Seq<u8>) -> Seq<(Seq<u8>, u64)> {
    if has_key(entries, key) {
        entries.remove(key_position(entries, key))
    } else {
        entries
    }
}

/// The entries of a vector, each key taken as its bytes.
pub open spec fn pairs_of(entries: Seq<(Vec<u8>, u64)>) -> Seq<(Seq<u8>, u64)> {
    Seq::new(entries.len(), |i: int| (entries[i].0@, entries[i].1))
}

/// The bytes that `bincode::serialize` writes for a list of entries, or
/// `None` where it reports an error.
pub uninterp spec fn bincode_bytes(entries: Seq<(Seq<u8>, u64)>) -> Option<Seq<u8>>;

/// The list of entries that `bincode::deserialize` reads from `bytes`, or
/// `None` where it reports an error.
pub uninterp spec fn bincode_entries(bytes: Seq<u8>) -> Option<Seq<(Seq<u8>, u64)>>;

/// The keys of the map of `entries` are the keys that occur in `entries`.
pub proof fn lemma_map_of_keys(entries: Seq<(Seq<u8>, u64)>, key: Seq<u8>)
    ensures
        map_of(entries).contains_key(key) <==> has_key(entries, key),
        map_of(entries).dom().finite(),
    decreases entries.len(),
{
    if entries.len() > 0 {
        let front = entries.drop_last();
        lemma_map_of_keys(front, key);
        if has_key(front, key) {
            let i = choose|i: int| 0 <= i < front.len() && (#[trigger] front[i]).0 == key;
            assert(entries[i].0 == key);
        }
        if entries.last().0 == key {
            assert(entries[entries.len() - 1].0 == key);
        }
        if has_key(entries, key) {
            let i = choose|i: int| 0 <= i < entries.len() && (#[trigger] entries[i]).0 == key;
            if i < front.len() {
                assert(front[i].0 == key);
            }
        }
    }
}

/// Where no key occurs twice, the map gives for each entry's key that
/// entry's offset.
pub proof fn lemma_map_of_entry(entries: Seq<(Seq<u8>, u64)>, i: int)
    requires
        distinct_keys(entries),
        0 <= i < entries.len(),
    ensures
        map_of(entries).contains_key(entries[i].0),
        map_of(entries)[entries[i].0] == entries[i].1,
    decreases entries.len(),
{
    let front = entries.drop_last();
    if i < front.len() {
        assert(distinct_keys(front)) by {
            assert forall|a: int, b: int| 0 <= a < b < front.len() implies (#[trigger] front[a]).0
                != (#[trigger] front[b]).0 by {
                assert(front[a] == entries[a]);
                assert(front[b] == entries[b]);
            }
        }
        lemma_map_of_entry(front, i);
        assert(front[i] == entries[i]);
        assert(entries[i].0 != entries[entries.len() - 1].0);
    }
}

/// Where no key occurs twice, the map has as many keys as there are
/// entries.
pub proof fn lemma_map_of_len(entries: Seq<(Seq<u8>, u64)>)
    requires
        distinct_keys(entries),
    ensures
        map_of(entries).dom().finite(),
        map_of(entries).dom().len() == entries.len(),
    decreases entries.len(),
{
    if entries.len() > 0 {
        let front = entries.drop_last();
        assert(distinct_keys(front)) by {
            assert forall|a: int, b: int| 0 <= a < b < front.len() implies (#[trigger] front[a]).0
                != (#[trigger] front[b]).0 by {
                assert(front[a] == entries[a]);
                assert(front[b] == entries[b]);
            }
        }
        lemma_map_of_len(front);
        lemma_map_of_keys(front, entries.last().0);
        if has_key(front, entries.last().0) {
            let i = choose|i: int|
                0 <= i < front.len() && (#[trigger] front[i]).0 == entries.last().0;
            assert(entries[i].0 == entries[entries.len() - 1].0);
        }
        assert(map_of(entries).dom() =~= map_of(front).dom().insert(entries.last().0));
    }
}

/// Calls `bincode::serialize` on the list of entries. Believed of it: whether
/// it writes bytes, and which, depends on the entries alone; and what it
/// writes, `bincode::deserialize` reads back as the same list of entries.
#[verifier::external_body]
pub(crate) fn serialize_entries(entries: &Vec<(Vec<u8>, u64)>) -> (bytes: Option<Vec<u8>>)
    ensures
        match bytes {
            Some(b) => bincode_bytes(pairs_of(entries@)) == Some(b@) && bincode_entries(b@) == Some(
                pairs_of(entries@),
            ),
            None => bincode_bytes(pairs_of(entries@)).is_none(),
        },
{
    bincode::serialize(entries).ok()
}

/// Calls `bincode::deserialize` for a list of entries. Believed of it:
/// whether it reads a list, and which, depends on the bytes alone.
#[verifier::external_body]
pub(crate) fn deserialize_entries(bytes: &[u8]) -> (entries: Option<Vec<(Vec<u8>, u64)>>)
    ensures
        match entries {
            Some(e) => bincode_entries(bytes@) == Some(pairs_of(e@)),
            None => bincode_entries(bytes@).is_none(),
        },
{
    bincode::deserialize(bytes).ok()
}

/// The in-memory index of a store.
#[derive(Debug)]
pub struct Index {
    entries: Vec<(Vec<u8>, u64)>,
}

impl Index {
    /// The entries of the index, in the order in which they are kept.
    pub closed spec fn pairs(&self) -> Seq<(Seq<u8>, u64)> {
        pairs_of(self.entries@)
    }

    /// The map from keys to offsets that the index stands for.
    pub open spec fn view(&self) -> Map<Seq<u8>, u64> {
        map_of(self.pairs())
    }

    /// Whether the index is well formed: no key occurs twice among its
    /// entries.
    pub open spec fn wf(&self) -> bool {
        distinct_keys(self.pairs())
    }

    /// An index without entries.
    pub fn new() -> (index: Index)
        ensures
            index.wf(),
            index@ == Map::<Seq<u8>, u64>::empty(),
            index.pairs() == Seq::<(Seq<u8>, u64)>::empty(),
    {
        let index = Index { entries: Vec::new() };
        assert(index.pairs() =~= Seq::<(Seq<u8>, u64)>::empty());
        index
    }

    /// Where among the entries `key` stands, if it does.
    fn position(&self, key: &[u8]) -> (at: Option<usize>)
        requires
            self.wf(),
        ensures
            match at {
                Some(i) => i < self.pairs().len() && self.pairs()[i as int].0 == key@,
                None => !has_key(self.pairs(), key@),
            },
    {
        let mut i: usize = 0;
        while i < self.entries.len()
            invariant
                i <= self.entries@.len(),
                forall|j: int| 0 <= j < i ==> (#[trigger] self.pairs()[j]).0 != key@,
            decreases self.entries@.len() - i,
        {
            if bytes_equal(self.entries[i].0.as_slice(), key) {
                return Some(i);
            }
            i = i + 1;
        }
        None
    }

    /// The offset recorded for `key`, if there is one.
    pub fn get(&self, key: &[u8]) -> (offset: Option<u64>)
        requires
            self.wf(),
        ensures
            offset == (if self@.contains_key(key@) {
                Some(self@[key@])
            } else {
                None
            }),
    {
        proof {
            lemma_map_of_keys(self.pairs(), key@);
        }
        match self.position(key) {
            Some(i) => {
                proof {
                    lemma_map_of_entry(self.pairs(), i as int);
                }
                Some(self.entries[i].1)
            },
            None => None,
        }
    }

    /// Records `offset` for `key`, in place of what was recorded before.
    pub fn put(&mut self, key: &[u8], offset: u64)
        requires
            old(self).wf(),
        ensures
            final(self).wf(),
            final(self)@ == old(self)@.insert(key@, offset),
            final(self).pairs() == put_entry(old(self).pairs(), key@, offset),
    {
        let ghost before = self.pairs();
        let owned = slice_to_vec(key);
        match self.position(key) {
            Some(i) => {
                self.entries.set(i, (owned, offset));
                proof {
                    let after = pairs_of(self.entries@);
                    assert(after =~= before.update(i as int, (key@, offset)));
                    lemma_put_in_place(before, i as int, offset);
                    assert(before[i as int].0 == key@);
                    assert(key_position(before, key@) == i);
                }
            },
            None => {
                self.entries.push((owned, offset));
                proof {
                    let after = pairs_of(self.entries@);
                    assert(after =~= before.push((key@, offset)));
                    assert(after.drop_last() =~= before);
                    assert(distinct_keys(after)) by {
                        assert forall|a: int, b: int| 0 <= a < b < after.len() implies (
                        #[trigger] after[a]).0 != (#[trigger] after[b]).0 by {
                            if b < before.len() {
                                assert(after[a] == before[a] && after[b] == before[b]);
                            } else {
                                assert(after[a] == before[a]);
                            }
                        }
                    }
                }
            },
        }
    }

    /// Forgets what was recorded for `key`.
    pub fn remove(&mut self, key: &[u8])
        requires
            old(self).wf(),
        ensures
            final(self).wf(),
            final(self)@ == old(self)@.remove(key@),
            final(self).pairs() == remove_entry(old(self).pairs(), key@),
    {
        let ghost before = self.pairs();
        match self.position(key) {
            Some(i) => {
                self.entries.remove(i);
                proof {
                    let after = pairs_of(self.entries@);
                    assert(after =~= before.remove(i as int));
                    lemma_remove_entry(before, i as int);
                    assert(before[i as int].0 == key@);
                    assert(key_position(before, key@) == i);
                }
            },
            None => {
                proof {
                    lemma_map_of_keys(before, key@);
                    assert(map_of(before).remove(key@) =~= map_of(before));
                }
            },
        }
    }

    /// An index with the same entries.
    pub fn duplicate(&self) -> (copy: Index)
        requires
            self.wf(),
        ensures
            copy.wf(),
            copy.pairs() == self.pairs(),
            copy@ == self@,
    {
        let mut entries: Vec<(Vec<u8>, u64)> = Vec::new();
        let mut i: usize = 0;
        while i < self.entries.len()
            invariant
                i <= self.entries@.len(),
                pairs_of(entries@) == self.pairs().take(i as int),
            decreases self.entries@.len() - i,
        {
            let ghost before = pairs_of(entries@);
            let key = slice_to_vec(self.entries[i].0.as_slice());
            entries.push((key, self.entries[i].1));
            proof {
                let all = self.pairs();
                assert(pairs_of(entries@) =~= before.push(all[i as int]));
                assert(all.take(i + 1) =~= all.take(i as int).push(all[i as int]));
            }
            i = i + 1;
        }
        assert(self.pairs().take(i as int) =~= self.pairs());
        Index { entries }
    }

    /// The number of keys in the index.
    pub fn len(&self) -> (n: usize)
        requires
            self.wf(),
        ensures
            self@.dom().finite(),
            n == self@.dom().len(),
    {
        proof {
            lemma_map_of_len(self.pairs());
        }
        self.entries.len()
    }

    /// The entries of the index, each key once.
    pub fn entries(&self) -> (entries: &Vec<(Vec<u8>, u64)>)
        ensures
            pairs_of(entries@) == self.pairs(),
            map_of(pairs_of(entries@)) == self@,
    {
        &self.entries
    }

    /// The index that a list of entries stands for. Where a key occurs more
    /// than once, the entry that comes last counts.
    pub fn from_entries(entries: &Vec<(Vec<u8>, u64)>) -> (index: Index)
        ensures
            index.wf(),
            index@ == map_of(pairs_of(entries@)),
    {
        let mut index = Index::new();
        let mut i: usize = 0;
        while i < entries.len()
            invariant
                i <= entries@.len(),
                index.wf(),
                index@ == map_of(pairs_of(entries@).take(i as int)),
            decreases entries@.len() - i,
        {
            index.put(entries[i].0.as_slice(), entries[i].1);
            proof {
                let all = pairs_of(entries@);
                assert(all.take(i + 1).drop_last() =~= all.take(i as int));
                assert(all.take(i + 1).last() == all[i as int]);
            }
            i = i + 1;
        }
        assert(pairs_of(entries@).take(i as int) =~= pairs_of(entries@));
        index
    }

    /// The bytes of the index as `bincode` writes its entries, or `None`
    /// where `bincode` reports an error. Those bytes read back as an index
    /// with the same view.
    pub fn serialize(&self) -> (bytes: Option<Vec<u8>>)
        ensures
            match bytes {
                Some(b) => bincode_bytes(self.pairs()) == Some(b@) && bincode_entries(b@) == Some(
                    self.pairs(),
                ),
                None => bincode_bytes(self.pairs()).is_none(),
            },
    {
        serialize_entries(&self.entries)
    }

    /// The index that `bytes` hold, or `None` where `bincode` does not read
    /// a list of entries from them.
    pub fn deserialize(bytes: &[u8]) -> (index: Option<Index>)
        ensures
            match index {
                Some(i) => i.wf() && bincode_entries(bytes@).is_some() && i@ == map_of(
                    bincode_entries(bytes@).unwrap(),
                ),
                None => bincode_entries(bytes@).is_none(),
            },
    {
        match deserialize_entries(bytes) {
            Some(entries) => Some(Index::from_entries(&entries)),
            None => None,
        }
    }
}

/// Writing a new offset over the entry of a key changes the map at that key
/// alone, and leaves every key where it occurs once.
pub proof fn lemma_put_in_place(entries: Seq<(Seq<u8>, u64)>, i: int, offset: u64)
    requires
        distinct_keys(entries),
        0 <= i < entries.len(),
    ensures
        distinct_keys(entries.update(i, (entries[i].0, offset))),
        map_of(entries.update(i, (entries[i].0, offset))) == map_of(entries).insert(
            entries[i].0,
            offset,
        ),
{
    let key = entries[i].0;
    let after = entries.update(i, (key, offset));
    assert(distinct_keys(after)) by {
        assert forall|a: int, b: int| 0 <= a < b < after.len() implies (#[trigger] after[a]).0 != (
        #[trigger] after[b]).0 by {
            assert(after[a].0 == entries[a].0 && after[b].0 == entries[b].0);
        }
    }
    let target = map_of(entries).insert(key, offset);
    assert forall|k: Seq<u8>| #[trigger]
        map_of(after).dom().contains(k) == target.dom().contains(k) && (map_of(
            after,
        ).dom().contains(k) ==> map_of(after)[k] == target[k]) by {
        lemma_map_of_keys(after, k);
        lemma_map_of_keys(entries, k);
        lemma_map_of_entry(entries, i);
        if has_key(after, k) {
            let j = choose|j: int| 0 <= j < after.len() && (#[trigger] after[j]).0 == k;
            assert(entries[j].0 == k);
            lemma_map_of_entry(after, j);
            lemma_map_of_entry(entries, j);
        }
        if has_key(entries, k) {
            let j = choose|j: int| 0 <= j < entries.len() && (#[trigger] entries[j]).0 == k;
            assert(after[j].0 == k);
        }
    }
    assert(map_of(after) =~= map_of(entries).insert(key, offset));
}

/// Taking the entry of a key out takes that key out of the map, and leaves
/// every other key where it occurs once.
pub proof fn lemma_remove_entry(entries: Seq<(Seq<u8>, u64)>, i: int)
    requires
        distinct_keys(entries),
        0 <= i < entries.len(),
    ensures
        distinct_keys(entries.remove(i)),
        map_of(entries.remove(i)) == map_of(entries).remove(entries[i].0),
{
    let key = entries[i].0;
    let after = entries.remove(i);
    assert(distinct_keys(after)) by {
        assert forall|a: int, b: int| 0 <= a < b < after.len() implies (#[trigger] after[a]).0 != (
        #[trigger] after[b]).0 by {
            let a0 = if a < i { a } else { a + 1 };
            let b0 = if b < i { b } else { b + 1 };
            assert(after[a] == entries[a0] && after[b] == entries[b0]);
        }
    }
    let target = map_of(entries).remove(key);
    assert forall|k: Seq<u8>| #[trigger]
        map_of(after).dom().contains(k) == target.dom().contains(k) && (map_of(
            after,
        ).dom().contains(k) ==> map_of(after)[k] == target[k]) by {
        lemma_map_of_keys(after, k);
        lemma_map_of_keys(entries, k);
        if has_key(after, k) {
            let j = choose|j: int| 0 <= j < after.len() && (#[trigger] after[j]).0 == k;
            let j0 = if j < i { j } else { j + 1 };
            assert(after[j] == entries[j0]);
            assert(entries[j0].0 == k);
            assert(entries[j0].0 != entries[i].0);
            lemma_map_of_entry(after, j);
            lemma_map_of_entry(entries, j0);
        }
        if has_key(entries, k) && k != key {
            let j = choose|j: int| 0 <= j < entries.len() && (#[trigger] entries[j]).0 == k;
            let j1 = if j < i { j } else { j - 1 };
            assert(after[j1] == entries[j]);
            assert(after[j1].0 == k);
        }
    }
    assert(map_of(after) =~= map_of(entries).remove(key));
}

/// Recording an offset for a key changes the map at that key alone, and
/// leaves every key where it occurs once.
pub proof fn lemma_put_entry(entries: Seq<(Seq<u8>, u64)>, key: Seq<u8>, offset: u64)
    requires
        distinct_keys(entries),
    ensures
        distinct_keys(put_entry(entries, key, offset)),
        map_of(put_entry(entries, key, offset)) == map_of(entries).insert(key, offset),
{
    if has_key(entries, key) {
        let i = key_position(entries, key);
        lemma_put_in_place(entries, i, offset);
    } else {
        let after = entries.push((key, offset));
        assert(after.drop_last() =~= entries);
        assert forall|a: int, b: int| 0 <= a < b < after.len() implies (#[trigger] after[a]).0 != (
        #[trigger] after[b]).0 by {
            if b < entries.len() {
                assert(after[a] == entries[a] && after[b] == entries[b]);
            } else {
                assert(after[a] == entries[a]);
            }
        }
    }
}

/// Taking a key out changes the map at that key alone, and leaves every
/// other key where it occurs once.
pub proof fn lemma_remove_key(entries: Seq<(Seq<u8>, u64)>, key: Seq<u8>)
    requires
        distinct_keys(entries),
    ensures
        distinct_keys(remove_entry(entries, key)),
        map_of(remove_entry(entries, key)) == map_of(entries).remove(key),
{
    if has_key(entries, key) {
        let i = key_position(entries, key);
        lemma_remove_entry(entries, i);
    } else {
        lemma_map_of_keys(entries, key);
        assert(map_of(entries).remove(key) =~= map_of(entries));
    }
}

} // verus!
