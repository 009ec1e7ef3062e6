use libactionkv::record::encode_record;
use libactionkv::ActionKV;
use libactionkv::Index;
use libactionkv::Layout;
use libactionkv::StoreError;

fn fresh(layout: Layout) -> ActionKV {
    let mut store = ActionKV::new(layout, Vec::new(), Vec::new(), u64::MAX);
    store.load().unwrap();
    store
}

fn reopen(store: &ActionKV) -> ActionKV {
    ActionKV::new(store.layout(), store.data().to_vec(), store.index_file().to_vec(), u64::MAX)
}

fn record(key: &[u8], value: &[u8]) -> Vec<u8> {
    encode_record(key, value, u64::MAX).unwrap()
}

#[test]
fn open_gives_an_empty_unloaded_store() {
    let store = ActionKV::open(vec![1, 2, 3], vec![4, 5]);
    assert_eq!(store.layout(), Layout::Sidecar);
    assert!(!store.is_loaded());
    assert_eq!(store.fault(), None);
    assert_eq!(store.index().len(), 0);
    assert_eq!(store.data(), &[1, 2, 3]);
    assert_eq!(store.index_file(), &[4, 5]);
    let store = ActionKV::open_embedded(vec![1, 2, 3]);
    assert_eq!(store.layout(), Layout::Embedded);
    assert!(!store.is_loaded());
    assert_eq!(store.data(), &[1, 2, 3]);
    assert_eq!(store.index_file(), &[] as &[u8]);
}

#[test]
fn operations_before_load_are_not_loaded() {
    let mut store = ActionKV::open(Vec::new(), Vec::new());
    assert_eq!(store.insert(b"foo", b"bar"), Err(StoreError::NotLoaded));
    assert_eq!(store.update(b"foo", b"bar"), Err(StoreError::NotLoaded));
    assert_eq!(store.delete(b"foo"), Err(StoreError::NotLoaded));
    assert_eq!(store.get(b"foo"), Err(StoreError::NotLoaded));
    assert_eq!(store.store_index_on_disk(), Err(StoreError::NotLoaded));
    assert_eq!(store.data().len(), 0);
    assert_eq!(store.find(b"foo"), Ok(None));
}

#[test]
fn test_load() {
    let mut store = ActionKV::open(Vec::new(), Vec::new());
    store.load().unwrap();
    assert!(store.is_loaded());
    assert_eq!(store.index().len(), 0);
    for i in 0..9 {
        let key = format!("{:?}{}", b"foo", i);
        store.insert(key.as_bytes(), b"bar").expect("Unable to insert key value pair");
    }
    assert_eq!(store.index().len(), 9);
    assert_eq!(reopen(&store).index().len(), 0);
    let mut again = reopen(&store);
    again.load().unwrap();
    assert_eq!(again.index().len(), 9);
}

#[test]
fn test_insert_and_get() {
    let mut store = fresh(Layout::Sidecar);
    store.insert(b"foo", b"bar").expect("Unable to insert key value pair");
    let value = store.get(b"foo").expect("Unable to get value pair").expect("Didnt find value");
    assert_eq!("bar", String::from_utf8(value).unwrap());
}

#[test]
fn test_get_at() {
    let mut store = fresh(Layout::Sidecar);
    store.insert(b"foo", b"bar").expect("Unable to insert key value pair");
    let pair = store.get_at(0).expect("Unable to get value pair");
    assert_eq!("foo", String::from_utf8(pair.key).unwrap());
    assert_eq!("bar", String::from_utf8(pair.value).unwrap());
}

#[test]
fn test_find() {
    let mut store = fresh(Layout::Sidecar);
    store.insert(b"foo", b"bar").expect("Unable to insert key value pair");
    let mut second = reopen(&store);
    let found = second.find(b"foo").expect("Unable to get value pair").unwrap();
    assert_eq!("bar", String::from_utf8(found.1).unwrap());
    assert_eq!(found.0, 0);
}

#[test]
fn test_delete() {
    let mut store = fresh(Layout::Sidecar);
    store.insert(b"foo", b"bar").expect("Unable to insert key value pair");
    assert_eq!(store.get(b"foo"), Ok(Some(b"bar".to_vec())));
    store.delete(b"foo").expect("unable to delete value at key");
    assert_eq!(store.get(b"foo"), Ok(None));
}

#[test]
fn test_update() {
    let mut store = fresh(Layout::Sidecar);
    store.insert(b"foo", b"bar").expect("Unable to insert key value pair");
    assert_eq!(store.get(b"foo"), Ok(Some(b"bar".to_vec())));
    store.update(b"foo", b"foo").expect("Unable to update value at the key");
    assert_eq!(store.get(b"foo"), Ok(Some(b"foo".to_vec())));
}

#[test]
fn insert_then_get_gives_the_value_and_the_log_grows_by_the_record() {
    for layout in [Layout::Embedded, Layout::Sidecar] {
        let mut store = ActionKV::new(layout, Vec::new(), Vec::new(), u64::MAX);
        store.load().unwrap();
        store.insert(b"foo", b"bar").unwrap();
        assert_eq!(store.get(b"foo"), Ok(Some(b"bar".to_vec())));
        assert_eq!(store.data().len(), 12 + 3 + 3);
        assert_eq!(store.data(), record(b"foo", b"bar").as_slice());
        assert_eq!(store.index().get(b"foo"), Some(0));
    }
}

#[test]
fn second_insert_wins_and_find_gives_its_offset() {
    for layout in [Layout::Embedded, Layout::Sidecar] {
        let mut store = fresh(layout);
        store.insert(b"foo", b"bar").unwrap();
        store.insert(b"foo", b"baz").unwrap();
        assert_eq!(store.get(b"foo"), Ok(Some(b"baz".to_vec())));
        assert_eq!(store.find(b"foo"), Ok(Some((18, b"baz".to_vec()))));
        assert_eq!(store.index().get(b"foo"), Some(18));
        assert_eq!(store.index().len(), 1);
    }
}

#[test]
fn delete_hides_the_key_and_find_gives_the_tombstone() {
    for layout in [Layout::Embedded, Layout::Sidecar] {
        let mut store = fresh(layout);
        store.insert(b"foo", b"bar").unwrap();
        store.delete(b"foo").unwrap();
        assert_eq!(store.get(b"foo"), Ok(None));
        assert_eq!(store.find(b"foo"), Ok(Some((18, Vec::new()))));
        assert_eq!(store.index().len(), 0);
        assert_eq!(store.data().len(), 18 + 15);
    }
}

#[test]
fn reopening_gives_the_same_answers() {
    for layout in [Layout::Embedded, Layout::Sidecar] {
        let mut store = fresh(layout);
        store.insert(b"a", b"1").unwrap();
        store.insert(b"b", b"2").unwrap();
        let mut again = reopen(&store);
        again.load().unwrap();
        assert_eq!(again.get(b"b"), Ok(Some(b"2".to_vec())));
        assert_eq!(again.get(b"a"), Ok(Some(b"1".to_vec())));
        assert_eq!(again.get(b"c"), Ok(None));
        assert_eq!(again.index().get(b"a"), Some(0));
        assert_eq!(again.index().get(b"b"), Some(14));
    }
}

#[test]
fn reopening_after_overwrites_and_deletes_gives_the_same_answers() {
    for layout in [Layout::Embedded, Layout::Sidecar] {
        let mut store = fresh(layout);
        store.insert(b"a", b"1").unwrap();
        store.insert(b"b", b"2").unwrap();
        store.update(b"a", b"11").unwrap();
        store.delete(b"b").unwrap();
        store.insert(b"c", b"3").unwrap();
        let mut again = reopen(&store);
        again.load().unwrap();
        for key in [b"a", b"b", b"c", b"d"] {
            assert_eq!(again.get(key), store.get(key));
        }
        assert_eq!(again.get(b"a"), Ok(Some(b"11".to_vec())));
        assert_eq!(again.get(b"b"), Ok(None));
    }
}

#[test]
fn load_of_a_truncated_log_is_truncated_record() {
    let mut store = fresh(Layout::Embedded);
    store.insert(b"foo", b"bar").unwrap();
    let mut bytes = store.data().to_vec();
    bytes.pop();
    let mut again = ActionKV::open_embedded(bytes);
    assert_eq!(again.load(), Err(StoreError::TruncatedRecord));
    assert!(!again.is_loaded());
    assert_eq!(again.fault(), Some(StoreError::TruncatedRecord));
}

#[test]
fn load_of_a_truncated_sidecar_is_truncated_record() {
    let mut store = fresh(Layout::Sidecar);
    store.insert(b"foo", b"bar").unwrap();
    let mut sidecar = store.index_file().to_vec();
    sidecar.pop();
    let mut again = ActionKV::open(store.data().to_vec(), sidecar);
    assert_eq!(again.load(), Err(StoreError::TruncatedRecord));
    assert!(!again.is_loaded());
}

#[test]
fn get_of_a_record_with_a_corrupt_checksum_is_corruption() {
    let mut store = fresh(Layout::Sidecar);
    store.insert(b"foo", b"bar").unwrap();
    let mut data = store.data().to_vec();
    data[0] ^= 0xFF;
    let mut again = ActionKV::open(data, store.index_file().to_vec());
    again.load().unwrap();
    assert_eq!(again.get(b"foo"), Err(StoreError::Corruption));
    assert_eq!(again.get_at(0).err(), Some(StoreError::Corruption));
    assert_eq!(again.find(b"foo"), Err(StoreError::Corruption));
}

#[test]
fn load_of_a_corrupt_log_is_corruption() {
    let mut store = fresh(Layout::Embedded);
    store.insert(b"foo", b"bar").unwrap();
    store.insert(b"a", b"1").unwrap();
    let mut data = store.data().to_vec();
    data[2] ^= 1;
    let mut again = ActionKV::open_embedded(data);
    assert_eq!(again.load(), Err(StoreError::Corruption));
}

#[test]
fn writes_are_refused_after_a_fault_until_acknowledged() {
    let mut store = fresh(Layout::Sidecar);
    store.insert(b"foo", b"bar").unwrap();
    let mut data = store.data().to_vec();
    data[0] ^= 0xFF;
    let mut again = ActionKV::open(data, store.index_file().to_vec());
    again.load().unwrap();
    assert_eq!(again.fault(), None);
    assert_eq!(again.get(b"foo"), Err(StoreError::Corruption));
    assert_eq!(again.fault(), Some(StoreError::Corruption));
    let len = again.data().len();
    assert_eq!(again.insert(b"a", b"1"), Err(StoreError::Corruption));
    assert_eq!(again.delete(b"foo"), Err(StoreError::Corruption));
    assert_eq!(again.store_index_on_disk(), Err(StoreError::Corruption));
    assert_eq!(again.data().len(), len);
    assert_eq!(again.get(b"zzz"), Ok(None));
    again.acknowledge();
    assert_eq!(again.fault(), None);
    assert_eq!(again.insert(b"a", b"1"), Ok(()));
    assert_eq!(again.get(b"a"), Ok(Some(b"1".to_vec())));
}

#[test]
fn reserved_key_is_refused_everywhere() {
    for layout in [Layout::Embedded, Layout::Sidecar] {
        let mut store = fresh(layout);
        assert_eq!(store.insert(b"+index", b"x"), Err(StoreError::ReservedKey));
        assert_eq!(store.update(b"+index", b"x"), Err(StoreError::ReservedKey));
        assert_eq!(store.delete(b"+index"), Err(StoreError::ReservedKey));
        assert_eq!(store.get(b"+index"), Err(StoreError::ReservedKey));
        assert_eq!(store.find(b"+index"), Err(StoreError::ReservedKey));
        assert_eq!(store.data().len(), 0);
        assert_eq!(store.fault(), None);
    }
    let mut unloaded = ActionKV::open(Vec::new(), Vec::new());
    assert_eq!(unloaded.insert(b"+index", b"x"), Err(StoreError::ReservedKey));
}

#[test]
fn insert_over_the_limit_is_oversized_and_changes_nothing() {
    for layout in [Layout::Embedded, Layout::Sidecar] {
        let mut store = ActionKV::new(layout, Vec::new(), Vec::new(), 64);
        store.load().unwrap();
        store.insert(b"foo", b"bar").unwrap();
        let data = store.data().to_vec();
        let sidecar = store.index_file().to_vec();
        assert_eq!(store.insert(b"big", &[0u8; 62]), Err(StoreError::OversizedRecord));
        assert_eq!(store.data(), data.as_slice());
        assert_eq!(store.index_file(), sidecar.as_slice());
        assert_eq!(store.index().len(), 1);
        assert_eq!(store.fault(), None);
        assert_eq!(store.insert(b"big", &[0u8; 61]), Ok(()));
    }
}

#[test]
fn insert_whose_index_does_not_fit_the_sidecar_changes_nothing() {
    let mut store = ActionKV::new(Layout::Sidecar, Vec::new(), Vec::new(), 40);
    store.load().unwrap();
    store.insert(b"a", b"1").unwrap();
    let data = store.data().to_vec();
    let sidecar = store.index_file().to_vec();
    assert_eq!(store.insert(b"b", b"2"), Err(StoreError::OversizedRecord));
    assert_eq!(store.data(), data.as_slice());
    assert_eq!(store.index_file(), sidecar.as_slice());
    assert_eq!(store.index().len(), 1);
    assert_eq!(store.index().get(b"b"), None);
    assert_eq!(store.update(b"a", b"2"), Ok(()));
    assert_eq!(store.get(b"a"), Ok(Some(b"2".to_vec())));
    assert_eq!(store.delete(b"a"), Ok(()));
    assert_eq!(store.get(b"a"), Ok(None));
}

#[test]
fn insert_of_an_empty_value_is_kept() {
    let mut store = fresh(Layout::Sidecar);
    store.insert(b"foo", b"").unwrap();
    assert_eq!(store.get(b"foo"), Ok(Some(Vec::new())));
    let mut again = reopen(&store);
    again.load().unwrap();
    assert_eq!(again.get(b"foo"), Ok(Some(Vec::new())));
}

#[test]
fn sidecar_holds_one_record_with_the_index() {
    let mut store = fresh(Layout::Sidecar);
    store.insert(b"a", b"1").unwrap();
    let mut value = vec![1u8, 0, 0, 0, 0, 0, 0, 0, 1, 0, 0, 0, 0, 0, 0, 0, 97];
    value.extend_from_slice(&[0u8; 8]);
    assert_eq!(store.index_file(), record(b"+index", &value).as_slice());
    assert_eq!(store.index_file().len(), 43);
    store.delete(b"a").unwrap();
    assert_eq!(store.index_file(), record(b"+index", &[0u8; 8]).as_slice());
}

#[test]
fn load_takes_the_last_record_of_the_sidecar() {
    let mut first = Index::new();
    first.put(b"a", 0);
    let mut second = Index::new();
    second.put(b"b", 14);
    second.put(b"+index", 99);
    let mut sidecar = record(b"+index", &first.serialize().unwrap());
    sidecar.extend_from_slice(&record(b"anything", &second.serialize().unwrap()));
    let mut data = record(b"a", b"1");
    data.extend_from_slice(&record(b"b", b"2"));
    let mut store = ActionKV::open(data, sidecar);
    store.load().unwrap();
    assert_eq!(store.index().len(), 1);
    assert_eq!(store.get(b"b"), Ok(Some(b"2".to_vec())));
    assert_eq!(store.get(b"a"), Ok(None));
}

#[test]
fn load_of_a_sidecar_that_holds_no_index_is_malformed() {
    let mut store = ActionKV::open(Vec::new(), record(b"+index", b"xyz"));
    assert_eq!(store.load(), Err(StoreError::MalformedIndex));
    assert!(!store.is_loaded());
    assert_eq!(store.fault(), None);
}

#[test]
fn get_through_an_index_that_points_at_another_key_is_desync() {
    let mut wrong = Index::new();
    wrong.put(b"a", 14);
    wrong.put(b"b", 28);
    wrong.put(b"c", 3);
    let mut data = record(b"a", b"1");
    data.extend_from_slice(&record(b"b", b"2"));
    let mut store = ActionKV::open(data, record(b"+index", &wrong.serialize().unwrap()));
    store.load().unwrap();
    assert_eq!(store.get(b"a"), Err(StoreError::IndexDesync));
    assert_eq!(store.fault(), Some(StoreError::IndexDesync));
    store.acknowledge();
    assert_eq!(store.fault(), None);
    assert_eq!(store.get(b"b"), Err(StoreError::IndexDesync));
    assert_eq!(store.fault(), Some(StoreError::IndexDesync));
    assert!(store.get(b"c").is_err());
}

#[test]
fn get_at_reads_any_offset() {
    let mut store = fresh(Layout::Embedded);
    store.insert(b"a", b"1").unwrap();
    store.insert(b"b", b"2").unwrap();
    let pair = store.get_at(14).unwrap();
    assert_eq!(pair.key, b"b".to_vec());
    assert_eq!(pair.value, b"2".to_vec());
    assert_eq!(store.get_at(28).err(), Some(StoreError::EndOfStream));
    assert_eq!(store.get_at(20).err(), Some(StoreError::TruncatedRecord));
    assert_eq!(store.fault(), None);
}

#[test]
fn embedded_load_scans_the_log() {
    let mut data = record(b"a", b"1");
    data.extend_from_slice(&record(b"b", b"2"));
    data.extend_from_slice(&record(b"a", b""));
    data.extend_from_slice(&record(b"c", b"3"));
    let mut store = ActionKV::open_embedded(data);
    store.load().unwrap();
    assert_eq!(store.index().len(), 2);
    assert_eq!(store.index().get(b"a"), None);
    assert_eq!(store.index().get(b"b"), Some(14));
    assert_eq!(store.index().get(b"c"), Some(41));
    assert_eq!(store.get(b"c"), Ok(Some(b"3".to_vec())));
}

#[test]
fn embedded_index_record_is_appended_and_read_back() {
    let mut store = fresh(Layout::Embedded);
    store.insert(b"a", b"1").unwrap();
    store.insert(b"e", b"").unwrap();
    store.store_index_on_disk().unwrap();
    let flushed = store.data().len();
    assert!(flushed > 14 + 13);
    assert_eq!(store.index_file().len(), 0);
    assert_eq!(store.index().len(), 2);
    store.insert(b"b", b"2").unwrap();
    assert_eq!(store.find(b"b"), Ok(Some((flushed as u64, b"2".to_vec()))));
    let mut again = reopen(&store);
    again.load().unwrap();
    assert_eq!(again.index().len(), 3);
    assert_eq!(again.get(b"a"), Ok(Some(b"1".to_vec())));
    assert_eq!(again.get(b"e"), Ok(Some(Vec::new())));
    assert_eq!(again.get(b"b"), Ok(Some(b"2".to_vec())));
    assert_eq!(again.get(b"+index"), Err(StoreError::ReservedKey));
}

#[test]
fn embedded_load_of_an_index_record_that_holds_no_index_is_malformed() {
    let mut data = record(b"a", b"1");
    data.extend_from_slice(&record(b"+index", b"xyz"));
    let mut store = ActionKV::open_embedded(data);
    assert_eq!(store.load(), Err(StoreError::MalformedIndex));
}

#[test]
fn store_index_on_disk_rewrites_the_sidecar() {
    let mut store = fresh(Layout::Sidecar);
    assert_eq!(store.index_file().len(), 0);
    store.store_index_on_disk().unwrap();
    assert_eq!(store.index_file(), record(b"+index", &[0u8; 8]).as_slice());
    assert_eq!(store.data().len(), 0);
}

#[test]
fn find_and_get_agree_on_every_live_key() {
    for layout in [Layout::Embedded, Layout::Sidecar] {
        let mut store = fresh(layout);
        store.insert(b"a", b"1").unwrap();
        store.insert(b"b", b"2").unwrap();
        store.insert(b"a", b"3").unwrap();
        store.delete(b"b").unwrap();
        store.insert(b"c", b"4").unwrap();
        let keys: Vec<Vec<u8>> = store.index().entries().iter().map(|e| e.0.clone()).collect();
        assert_eq!(keys.len(), 2);
        for key in keys {
            let offset = store.index().get(&key).unwrap();
            let found = store.find(&key).unwrap().unwrap();
            assert_eq!(found.0, offset);
            assert_eq!(store.get(&key), Ok(Some(found.1)));
        }
    }
}

#[test]
fn load_twice_gives_the_same_index() {
    for layout in [Layout::Embedded, Layout::Sidecar] {
        let mut store = fresh(layout);
        store.insert(b"a", b"1").unwrap();
        store.insert(b"b", b"2").unwrap();
        store.load().unwrap();
        assert_eq!(store.index().len(), 2);
        assert_eq!(store.get(b"a"), Ok(Some(b"1".to_vec())));
        store.load().unwrap();
        assert_eq!(store.index().get(b"b"), Some(14));
    }
}

#[test]
fn recover_cuts_the_log_behind_the_last_good_record() {
    let mut store = fresh(Layout::Embedded);
    store.insert(b"foo", b"bar").unwrap();
    store.insert(b"a", b"1").unwrap();
    let mut bytes = store.data().to_vec();
    bytes.pop();
    let mut again = ActionKV::open_embedded(bytes);
    assert_eq!(again.load(), Err(StoreError::TruncatedRecord));
    assert_eq!(again.recover(), 13);
    assert_eq!(again.data(), record(b"foo", b"bar").as_slice());
    assert_eq!(again.fault(), None);
    assert!(!again.is_loaded());
    assert_eq!(again.load(), Ok(()));
    assert_eq!(again.get(b"foo"), Ok(Some(b"bar".to_vec())));
    assert_eq!(again.get(b"a"), Ok(None));
    assert_eq!(again.insert(b"a", b"2"), Ok(()));
    assert_eq!(again.find(b"a"), Ok(Some((18, b"2".to_vec()))));
}

#[test]
fn recover_of_a_good_log_cuts_nothing() {
    let mut store = fresh(Layout::Sidecar);
    store.insert(b"foo", b"bar").unwrap();
    store.insert(b"a", b"1").unwrap();
    assert_eq!(store.recover(), 0);
    assert_eq!(store.data().len(), 32);
    assert!(!store.is_loaded());
    assert_eq!(store.index().len(), 0);
    store.load().unwrap();
    assert_eq!(store.get(b"a"), Ok(Some(b"1".to_vec())));
}

#[test]
fn limit_is_the_one_that_was_set() {
    assert_eq!(ActionKV::open(Vec::new(), Vec::new()).max_len(), 0xFFFF_FFFF);
    assert_eq!(ActionKV::open_embedded(Vec::new()).max_len(), 0xFFFF_FFFF);
    assert_eq!(ActionKV::new(Layout::Embedded, Vec::new(), Vec::new(), 7).max_len(), 7);
}

#[test]
fn sidecar_write_that_fails_leaves_the_entries_in_order() {
    let mut store = ActionKV::new(Layout::Sidecar, Vec::new(), Vec::new(), 60);
    store.load().unwrap();
    store.insert(b"a", b"1").unwrap();
    store.insert(b"b", b"2").unwrap();
    let entries = store.index().entries().clone();
    let sidecar = store.index_file().to_vec();
    assert_eq!(store.insert(b"c", b"3"), Err(StoreError::OversizedRecord));
    assert_eq!(store.index().entries(), &entries);
    assert_eq!(store.index_file(), sidecar.as_slice());
    assert_eq!(store.delete(b"a"), Ok(()));
    assert_eq!(store.index().entries(), &vec![(b"b".to_vec(), 14u64)]);
}
