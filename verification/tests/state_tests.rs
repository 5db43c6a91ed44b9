use mini_lsm::error::LsmError;
use mini_lsm::iterator::StorageIterator;
use mini_lsm::kv::kv_pair::KeyValuePair;
use mini_lsm::kv::timestamped_key::TimestampedKey;
use mini_lsm::state::storage_state_options::StorageStateOptions;
use mini_lsm::state::scan::ScanIterator;
use mini_lsm::state::StorageState;
use mini_lsm::table::file::File;
use mini_lsm::table::Sst;
use std::ops::Bound;

fn options(sst_max_size_bytes: usize, block_max_size_bytes: usize) -> StorageStateOptions {
    StorageStateOptions {
        sst_max_size_bytes,
        block_max_size_bytes,
        block_cache_size_bytes: 0,
        path: String::from("state-tests"),
        num_memtables_limit: 5,
    }
}

fn scanned(it: &mut ScanIterator) -> Vec<(String, String)> {
    let mut items = vec![];
    while let Some(kv) = it.next() {
        items.push((
            String::from_utf8(kv.key.get_key()).unwrap(),
            String::from_utf8(kv.value).unwrap(),
        ));
    }
    items
}

fn strings(items: &[(&str, &str)]) -> Vec<(String, String)> {
    items.iter().map(|(k, v)| (k.to_string(), v.to_string())).collect()
}

fn get_put(mut storage_state: StorageState) {
    storage_state.put("hello".as_bytes(), "world".as_bytes()).unwrap();

    assert_eq!(
        storage_state.get("hello".as_bytes()).unwrap().unwrap(),
        Vec::from("world".as_bytes())
    );

    storage_state.delete("hello".as_bytes()).unwrap();
    assert_eq!(storage_state.get("hello".as_bytes()).unwrap(), None);
}

fn freeze(mut storage_state: StorageState) {
    storage_state.put("hello".as_bytes(), "world".as_bytes()).unwrap();
    // allow inserting at least one kv pair even if their size exceeds limit
    assert_eq!(storage_state.current_memtable().get_size_bytes(), 10);
    // new kv entry can't fit in current memtable, so the memtable should be frozen
    storage_state.put("another".as_bytes(), "entry".as_bytes()).unwrap();
    assert_eq!(storage_state.frozen_memtables().len(), 1);
    assert_eq!(storage_state.frozen_memtables()[0].get_id(), 0);
    // only contains new kv entry
    assert_eq!(storage_state.current_memtable().get_id(), 1);
    assert_eq!(storage_state.current_memtable().get_size_bytes(), 12);

    // test get entries
    assert_eq!(
        storage_state.get("hello".as_bytes()).unwrap().unwrap(),
        Vec::from("world".as_bytes())
    );
    assert_eq!(
        storage_state.get("another".as_bytes()).unwrap().unwrap(),
        Vec::from("entry".as_bytes())
    );
    assert_eq!(storage_state.get("does_not_exist".as_bytes()).unwrap(), None);
}

fn scan_memtables_only(mut storage_state: StorageState) {
    storage_state.put("k1".as_bytes(), "v1".as_bytes()).unwrap();
    // new kv entry can't fit in current memtable, so the memtable should be frozen
    storage_state.put("k2".as_bytes(), "v2".as_bytes()).unwrap();
    assert_eq!(storage_state.frozen_memtables().len(), 1);
    let mut scan = storage_state.scan(Bound::Unbounded, Bound::Unbounded).unwrap();
    let mut i = 0;
    while let Some(item) = scan.next() {
        assert!(item.key.get_key() == format!("k{}", i + 1).as_bytes());
        i += 1;
    }
    assert_eq!(i, 2);
}

fn get_scan_with_l0_ssts(mut storage_state: StorageState) {
    storage_state.put("k1".as_bytes(), "v1".as_bytes()).unwrap();
    // new kv entry can't fit in current memtable, so the memtable should be frozen
    storage_state.put("k2".as_bytes(), "v2".as_bytes()).unwrap();
    assert_eq!(storage_state.frozen_memtables().len(), 1);
    // flush to sst
    storage_state.flush_next_memtable_to_l0().unwrap();
    assert_eq!(storage_state.frozen_memtables().len(), 0);
    assert_eq!(storage_state.l0_sst_ids().len(), 1);
    // new kv entry can't fit in current memtable, so the memtable should be frozen
    storage_state.put("k3".as_bytes(), "v3".as_bytes()).unwrap();
    assert_eq!(storage_state.frozen_memtables().len(), 1);

    assert_eq!(storage_state.get("k1".as_bytes()).unwrap().unwrap(), "v1".as_bytes());
    assert_eq!(storage_state.get("k2".as_bytes()).unwrap().unwrap(), "v2".as_bytes());
    assert_eq!(storage_state.get("k3".as_bytes()).unwrap().unwrap(), "v3".as_bytes());
    assert!(storage_state.get("k2.5".as_bytes()).unwrap().is_none());

    let mut scan = storage_state.scan(Bound::Unbounded, Bound::Unbounded).unwrap();
    let mut i = 0;
    while let Some(item) = scan.next() {
        assert!(item.key.get_key() == format!("k{}", i + 1).as_bytes());
        i += 1;
    }
    assert_eq!(i, 3);

    // test bounded scan
    let mut bounded_iter = storage_state
        .scan(Bound::Included("k2".as_bytes()), Bound::Excluded("k3".as_bytes()))
        .unwrap();
    assert_eq!(bounded_iter.next().unwrap().key.get_key(), "k2".as_bytes());
    assert!(bounded_iter.next().is_none());
}

fn memtable_flush(mut storage_state: StorageState) {
    storage_state.put("hello".as_bytes(), "world".as_bytes()).unwrap();
    storage_state.freeze_memtable().unwrap();
    assert_eq!(storage_state.frozen_memtables().len(), 1);
    assert!(storage_state.l0_sst_ids().is_empty());

    // flush the memtable
    let res = storage_state.flush_next_memtable_to_l0();
    assert!(res.is_ok());

    // assert sst created
    assert_eq!(storage_state.l0_sst_ids().len(), 1);
    assert!(storage_state.frozen_memtables().is_empty());
}

#[test]
fn state_test_storage_state_get_put() {
    get_put(StorageState::open(options(128, 0)).unwrap());
}

#[test]
fn state_test_storage_state_freeze() {
    freeze(StorageState::open(options(9, 0)).unwrap());
}

#[test]
fn state_test_scan_memtables_only() {
    scan_memtables_only(StorageState::open(options(4, 0)).unwrap());
}

#[test]
fn state_test_get_scan_with_l0_ssts() {
    get_scan_with_l0_ssts(StorageState::open(options(4, 4)).unwrap());
}

#[test]
fn state_test_memtable_flush() {
    memtable_flush(StorageState::open(options(10, 0)).unwrap());
}

#[test]
fn test_flush_all_memtables() {
    // set up storage state
    let mut storage_state = StorageState::open(options(10, 0)).unwrap();
    storage_state.put("k1".as_bytes(), "v1".as_bytes()).unwrap();
    storage_state.freeze_memtable().unwrap();
    assert_eq!(storage_state.frozen_memtables().len(), 1);
    storage_state.put("k2".as_bytes(), "v2".as_bytes()).unwrap();

    // flush the memtable
    let res = storage_state.flush_all_memtables();
    assert!(res.is_ok());

    // assert sst created
    assert_eq!(storage_state.l0_sst_ids().len(), 2);
    assert!(storage_state.frozen_memtables().is_empty());
}

#[test]
fn storage_state_test_storage_state_get_put() {
    let mut settings = options(128, 0);
    settings.num_memtables_limit = 3;
    get_put(StorageState::open(settings).unwrap());
}

#[test]
fn storage_state_test_storage_state_freeze() {
    let mut settings = options(9, 0);
    settings.num_memtables_limit = 3;
    freeze(StorageState::open(settings).unwrap());
}

#[test]
fn storage_state_test_scan_memtables_only() {
    let mut settings = options(4, 0);
    settings.num_memtables_limit = 3;
    scan_memtables_only(StorageState::open(settings).unwrap());
}

#[test]
fn storage_state_test_get_scan_with_l0_ssts() {
    let mut settings = options(4, 4);
    settings.num_memtables_limit = 3;
    get_scan_with_l0_ssts(StorageState::open(settings).unwrap());
}

#[test]
fn storage_state_test_memtable_flush() {
    let mut settings = options(10, 0);
    settings.num_memtables_limit = 3;
    memtable_flush(StorageState::open(settings).unwrap());
}

#[test]
fn put_get_delete() {
    let mut state = StorageState::open(options(128, 0)).unwrap();
    assert_eq!(state.put(b"hello", b"world"), Ok(()));
    assert_eq!(state.get(b"hello"), Ok(Some(b"world".to_vec())));
    assert_eq!(state.delete(b"hello"), Ok(()));
    assert_eq!(state.get(b"hello"), Ok(None));
    assert_eq!(state.delete(b"hello"), Err(LsmError::KeyNotFound));
    assert_eq!(state.delete(b"never written"), Err(LsmError::KeyNotFound));
    // the tombstone is part of a scan
    let mut scan = state.scan(Bound::Unbounded, Bound::Unbounded).unwrap();
    assert_eq!(scanned(&mut scan), strings(&[("hello", "")]));
}

#[test]
fn default_options() {
    let defaults = StorageStateOptions::new_with_defaults().unwrap();
    assert_eq!(defaults.sst_max_size_bytes, 2 << 20);
    assert_eq!(defaults.block_max_size_bytes, 4096);
    assert_eq!(defaults.block_cache_size_bytes, 1 << 20);
    assert_eq!(defaults.path, "lsm.db");
    assert_eq!(defaults.num_memtables_limit, 3);
    let state = StorageState::open(defaults).unwrap();
    assert_eq!(state.current_memtable().get_id(), 0);
    assert!(state.current_memtable().is_mutable());
    assert_eq!(state.frozen_memtables().len(), 0);
    assert_eq!(state.ssts().len(), 0);
    assert_eq!(state.options().path, "lsm.db");
    assert_eq!(state.get_sst_path(3), b"00003.sst".to_vec());
}

#[test]
fn puts_are_read_back_and_scanned_in_key_order() {
    let mut state = StorageState::open(options(16, 0)).unwrap();
    let mut expected = vec![];
    for i in (0..40).rev() {
        let key = format!("key{:02}", i);
        let value = format!("value{}", i);
        assert_eq!(state.put(key.as_bytes(), value.as_bytes()), Ok(()));
        expected.push((key, value));
    }
    expected.reverse();
    assert!(state.frozen_memtables().len() > 10);
    for (key, value) in &expected {
        assert_eq!(state.get(key.as_bytes()), Ok(Some(value.clone().into_bytes())));
    }
    let mut scan = state.scan(Bound::Unbounded, Bound::Unbounded).unwrap();
    assert!(scan.is_valid());
    assert_eq!(scanned(&mut scan), expected);
    // the same after everything is flushed
    assert_eq!(state.flush_all_memtables(), Ok(()));
    assert_eq!(state.frozen_memtables().len(), 0);
    assert!(state.ssts().len() > 10);
    for (key, value) in &expected {
        assert_eq!(state.get(key.as_bytes()), Ok(Some(value.clone().into_bytes())));
    }
    let mut scan = state.scan(Bound::Unbounded, Bound::Unbounded).unwrap();
    assert_eq!(scanned(&mut scan), expected);
    let mut scan =
        state.scan(Bound::Excluded(b"key10"), Bound::Included(b"key13")).unwrap();
    assert_eq!(scanned(&mut scan), expected[11..14].to_vec());
}

#[test]
fn newer_values_shadow_older_ones() {
    let mut state = StorageState::open(options(1, 0)).unwrap();
    assert_eq!(state.put(b"k", b"first"), Ok(()));
    assert_eq!(state.flush_all_memtables(), Ok(()));
    assert_eq!(state.put(b"k", b"second"), Ok(()));
    assert_eq!(state.flush_all_memtables(), Ok(()));
    assert_eq!(state.get(b"k"), Ok(Some(b"second".to_vec())));
    assert_eq!(state.put(b"k", b"third"), Ok(()));
    assert_eq!(state.freeze_memtable(), Ok(()));
    assert_eq!(state.get(b"k"), Ok(Some(b"third".to_vec())));
    assert_eq!(state.put(b"k", b"fourth"), Ok(()));
    assert_eq!(state.get(b"k"), Ok(Some(b"fourth".to_vec())));
    // a scan yields every version, the newest first
    let mut scan = state.scan(Bound::Unbounded, Bound::Unbounded).unwrap();
    assert_eq!(
        scanned(&mut scan),
        strings(&[("k", "fourth"), ("k", "third"), ("k", "second"), ("k", "first")])
    );
    // a delete hides the key in the tables too
    assert_eq!(state.delete(b"k"), Ok(()));
    assert_eq!(state.get(b"k"), Ok(None));
    assert_eq!(state.flush_all_memtables(), Ok(()));
    assert_eq!(state.get(b"k"), Ok(None));
    assert_eq!(state.delete(b"k"), Err(LsmError::KeyNotFound));
}

#[test]
fn ids_grow_with_every_memtable_and_tables_keep_them() {
    let mut state = StorageState::open(options(1, 0)).unwrap();
    for key in ["a", "b", "c"] {
        assert_eq!(state.put(key.as_bytes(), b"v"), Ok(()));
    }
    assert_eq!(state.current_memtable().get_id(), 2);
    let frozen: Vec<usize> = state.frozen_memtables().iter().map(|m| m.get_id()).collect();
    assert_eq!(frozen, vec![1, 0]);
    assert!(state.frozen_memtables().iter().all(|m| !m.is_mutable()));
    assert_eq!(state.flush_next_memtable_to_l0(), Ok(Some(0)));
    assert_eq!(state.flush_next_memtable_to_l0(), Ok(Some(1)));
    assert_eq!(state.flush_next_memtable_to_l0(), Ok(None));
    let ids: Vec<usize> = state.l0_sst_ids().iter().copied().collect();
    assert_eq!(ids, vec![1, 0]);
    let table_ids: Vec<usize> = state.ssts().iter().map(|t| t.get_id()).collect();
    assert_eq!(table_ids, vec![1, 0]);
}

#[test]
fn trigger_flush_waits_for_the_limit() {
    let mut settings = options(1, 0);
    settings.num_memtables_limit = 2;
    let mut state = StorageState::open(settings).unwrap();
    assert_eq!(state.put(b"a", b"1"), Ok(()));
    assert_eq!(state.put(b"b", b"2"), Ok(()));
    assert_eq!(state.frozen_memtables().len(), 1);
    assert_eq!(state.trigger_flush(), Ok(None));
    assert_eq!(state.ssts().len(), 0);
    assert_eq!(state.put(b"c", b"3"), Ok(()));
    assert_eq!(state.frozen_memtables().len(), 2);
    assert_eq!(state.trigger_flush(), Ok(Some(0)));
    assert_eq!(state.frozen_memtables().len(), 1);
    assert_eq!(state.ssts().len(), 1);
    assert_eq!(state.get(b"a"), Ok(Some(b"1".to_vec())));
}

#[test]
fn a_flushed_table_can_be_written_and_opened_again() {
    let mut state = StorageState::open(options(1, 8)).unwrap();
    assert_eq!(state.put(b"k1", b"v1"), Ok(()));
    assert_eq!(state.freeze_memtable(), Ok(()));
    let id = state.flush_next_memtable_to_l0().unwrap().unwrap();
    assert_eq!(state.get_sst_path(id), b"00000.sst".to_vec());
    let image = state.ssts()[0].file().get_contents_as_bytes();
    let reopened = Sst::open(id, File::create(image), None).unwrap();
    assert_eq!(reopened.get_first_key().get_key(), b"k1".to_vec());
    assert!(reopened.maybe_contains_key(b"k1"));
}

#[test]
fn flush_of_an_empty_memtable_gives_an_empty_table() {
    let mut state = StorageState::open(options(64, 16)).unwrap();
    assert_eq!(state.flush_all_memtables(), Ok(()));
    assert_eq!(state.ssts().len(), 1);
    assert_eq!(state.get(b""), Ok(None));
    assert_eq!(state.get(b"k"), Ok(None));
    let mut scan = state.scan(Bound::Unbounded, Bound::Unbounded).unwrap();
    assert_eq!(scan.next(), None);
    assert_eq!(state.put(b"k", b"v"), Ok(()));
    assert_eq!(state.get(b"k"), Ok(Some(b"v".to_vec())));
}

#[test]
fn flush_fails_and_keeps_the_memtable_when_a_block_cannot_record_its_entries() {
    // blocks so large that the 16-bit offsets of one block run out first
    let mut state = StorageState::open(options(1 << 20, 1 << 20)).unwrap();
    for key in ["a", "b", "c"] {
        assert_eq!(state.put(key.as_bytes(), &vec![7; 30000]), Ok(()));
    }
    assert_eq!(state.freeze_memtable(), Ok(()));
    assert_eq!(state.flush_next_memtable_to_l0(), Err(LsmError::SizeOverflow));
    assert_eq!(state.trigger_flush(), Ok(None));
    assert_eq!(state.flush_all_memtables(), Err(LsmError::SizeOverflow));
    assert_eq!(state.frozen_memtables().len(), 2);
    assert_eq!(state.ssts().len(), 0);
    assert_eq!(state.get(b"c"), Ok(Some(vec![7; 30000])));
}

#[test]
fn put_refuses_a_key_or_value_of_more_than_65535_bytes() {
    let mut state = StorageState::open(options(1 << 20, 64)).unwrap();
    assert_eq!(state.put(&vec![b'k'; 65536], b"v"), Err(LsmError::SizeOverflow));
    assert_eq!(state.put(b"k", &vec![b'v'; 65536]), Err(LsmError::SizeOverflow));
    assert_eq!(state.current_memtable().get_size_bytes(), 0);
    assert_eq!(state.get(b"k"), Ok(None));
    assert_eq!(state.put(&vec![b'k'; 65535], b""), Ok(()));
    assert_eq!(state.put(b"k", &vec![b'v'; 65535]), Ok(()));
    assert_eq!(state.get(b"k"), Ok(Some(vec![b'v'; 65535])));
    assert_eq!(state.delete(&vec![b'x'; 65536]), Err(LsmError::KeyNotFound));
}

#[test]
fn scan_entry_type_is_a_key_value_pair() {
    let mut state = StorageState::open(options(64, 16)).unwrap();
    assert_eq!(state.put(b"k", b"v"), Ok(()));
    let mut scan = state.scan(Bound::Included(b"k"), Bound::Included(b"k")).unwrap();
    assert_eq!(
        scan.peek(),
        Some(KeyValuePair { key: TimestampedKey::new(b"k".to_vec()), value: b"v".to_vec() })
    );
}

#[test]
fn scan_from_a_bound_between_two_blocks_reads_the_later_blocks() {
    let mut state = StorageState::open(options(1 << 20, 25)).unwrap();
    for key in ["k1", "k2", "k4", "k5"] {
        assert_eq!(state.put(key.as_bytes(), b"old"), Ok(()));
    }
    assert_eq!(state.flush_all_memtables(), Ok(()));
    assert!(state.ssts()[0].num_blocks() >= 2);
    assert_eq!(state.put(b"k4", b"new"), Ok(()));
    assert_eq!(state.flush_all_memtables(), Ok(()));
    let mut scan = state.scan(Bound::Included(b"k3"), Bound::Unbounded).unwrap();
    assert_eq!(scanned(&mut scan), strings(&[("k4", "new"), ("k4", "old"), ("k5", "old")]));
    let mut scan = state.scan(Bound::Excluded(b"k2"), Bound::Included(b"k4")).unwrap();
    assert_eq!(scanned(&mut scan), strings(&[("k4", "new"), ("k4", "old")]));
    let mut scan = state.scan(Bound::Excluded(b"k3"), Bound::Excluded(b"k5")).unwrap();
    assert_eq!(scanned(&mut scan), strings(&[("k4", "new"), ("k4", "old")]));
}

#[test]
fn puts_with_freezes_and_flushes_between_are_read_back_and_scanned() {
    let mut state = StorageState::open(options(64, 32)).unwrap();
    let mut expected = vec![];
    for i in 0..60 {
        // keys in an order that is not the key order
        let key = format!("key{:02}", (i * 37) % 60);
        let value = format!("value{}", i);
        assert_eq!(state.put(key.as_bytes(), value.as_bytes()), Ok(()));
        expected.push((key, value));
        if i % 7 == 3 {
            assert_eq!(state.freeze_memtable(), Ok(()));
        }
        if i % 5 == 4 {
            assert!(state.flush_next_memtable_to_l0().is_ok());
        }
        if i % 11 == 10 {
            assert_eq!(state.trigger_flush().map(|_| ()), Ok(()));
        }
    }
    assert!(state.ssts().len() > 3);
    assert!(state.frozen_memtables().len() > 0);
    for (key, value) in &expected {
        assert_eq!(state.get(key.as_bytes()), Ok(Some(value.clone().into_bytes())));
    }
    assert_eq!(state.get(b"key60"), Ok(None));
    assert_eq!(state.get(b"key"), Ok(None));
    expected.sort();
    let mut scan = state.scan(Bound::Unbounded, Bound::Unbounded).unwrap();
    assert_eq!(scanned(&mut scan), expected);
    let mut scan = state.scan(Bound::Included(b"key20"), Bound::Excluded(b"key30")).unwrap();
    assert_eq!(scanned(&mut scan), expected[20..30].to_vec());
    let mut scan = state.scan(Bound::Excluded(b"key205"), Bound::Included(b"key25x")).unwrap();
    assert_eq!(scanned(&mut scan), expected[21..26].to_vec());
}

#[test]
fn plan_flush_gives_the_table_that_the_flush_installs() {
    let mut settings = options(1, 16);
    settings.num_memtables_limit = 2;
    let mut state = StorageState::open(settings).unwrap();
    assert!(state.build_oldest_table().unwrap().is_none());
    assert_eq!(state.put(b"a", b"1"), Ok(()));
    assert_eq!(state.put(b"b", b"2"), Ok(()));
    assert_eq!(state.frozen_memtables().len(), 1);
    // below the limit nothing is planned, but the oldest table can be built
    assert!(state.plan_flush().unwrap().is_none());
    assert_eq!(state.build_oldest_table().unwrap().unwrap().get_id(), 0);
    assert_eq!(state.put(b"c", b"3"), Ok(()));
    let planned = state.plan_flush().unwrap().unwrap();
    assert_eq!(planned.get_id(), 0);
    // the store is as it was
    assert_eq!(state.frozen_memtables().len(), 2);
    assert_eq!(state.ssts().len(), 0);
    let image = planned.file().get_contents_as_bytes();
    assert_eq!(state.trigger_flush(), Ok(Some(0)));
    assert_eq!(state.ssts()[0].file().get_contents_as_bytes(), image);
    assert_eq!(state.ssts()[0].get_id(), 0);
    assert_eq!(state.get(b"a"), Ok(Some(b"1".to_vec())));
}
