use mini_lsm::error::LsmError;
use mini_lsm::iterator::StorageIterator;
use mini_lsm::kv::kv_pair::KeyValuePair;
use mini_lsm::kv::timestamped_key::TimestampedKey;
use mini_lsm::memory::memtable::iterator::MemTableIterator;
use mini_lsm::memory::memtable::MemTable;
use mini_lsm::table::builder::SSTBuilder;
use mini_lsm::table::iterator::SSTIterator;
use std::ops::Bound;
use std::sync::Arc;

fn entry(key: &str, value: &str) -> KeyValuePair {
    KeyValuePair {
        key: TimestampedKey::new(key.as_bytes().into()),
        value: value.as_bytes().into(),
    }
}

fn drain(it: &mut MemTableIterator) -> Vec<Vec<u8>> {
    let mut keys = vec![];
    while let Some(kv) = it.next() {
        keys.push(kv.key.get_key());
    }
    keys
}

#[test]
fn test_memtable() {
    let mut memtable = MemTable::new(0);
    memtable.put("hello".as_bytes(), "world".as_bytes()).unwrap();

    assert_eq!(memtable.get("hello".as_bytes()).unwrap(), Vec::from("world".as_bytes()));

    assert!(memtable.freeze().is_ok());
    assert_eq!(memtable.is_mutable(), false);
    assert!(memtable.freeze().is_err())
}

#[test]
fn test_scan() {
    let mut memtable = MemTable::new(0);
    memtable.put("k1".as_bytes(), "v1".as_bytes()).unwrap();
    memtable.put("k2".as_bytes(), "v2".as_bytes()).unwrap();

    let mut iter = memtable.scan(Bound::Excluded("k1".as_bytes()), Bound::Included("k2".as_bytes()));
    assert_eq!(iter.next().unwrap().key.get_key(), "k2".as_bytes());
}

#[test]
fn test_flush() {
    let mut memtable = MemTable::new(0);
    memtable.put("hello".as_bytes(), "world".as_bytes()).unwrap();

    let mut sst_builder = SSTBuilder::new(20);
    memtable.flush(&mut sst_builder).unwrap();

    let sst = sst_builder.build(0, None).unwrap();
    let mut sst_iterator = SSTIterator::create_and_seek_to_first(Arc::new(sst)).unwrap();
    assert_eq!(sst_iterator.next().unwrap(), entry("hello", "world"));
}

#[test]
fn iterator_test_iterate() {
    let mut memtable = MemTable::new(0);
    let _ = memtable.put("hello".as_bytes(), "world".as_bytes());

    let mut iterator: MemTableIterator =
        MemTableIterator::new(&memtable, Bound::Unbounded, Bound::Unbounded);

    let expected_item = entry("hello", "world");
    assert!(iterator.peek().is_some_and(|kv| kv == expected_item));

    assert!(iterator.next().is_some_and(|kv| kv == expected_item));
    assert!(iterator.next().is_none());
}

#[test]
fn memtable_freeze_is_refused_the_second_time() {
    let mut memtable = MemTable::new(3);
    assert_eq!(memtable.get_id(), 3);
    assert!(memtable.is_mutable());
    assert_eq!(memtable.freeze(), Ok(()));
    assert_eq!(memtable.freeze(), Err(LsmError::MemtableImmutable));
    assert_eq!(memtable.freeze(), Err(LsmError::MemtableImmutable));
    assert_eq!(memtable.put(b"k", b"v"), Err(LsmError::MemtableImmutable));
    assert_eq!(memtable.get(b"k"), None);
    assert_eq!(memtable.get_size_bytes(), 0);
}

#[test]
fn memtable_keeps_the_last_value_and_counts_every_write() {
    let mut memtable = MemTable::new(0);
    assert_eq!(memtable.put(b"key", b"one"), Ok(()));
    assert_eq!(memtable.get_size_bytes(), 6);
    assert_eq!(memtable.put(b"key", b"three"), Ok(()));
    assert_eq!(memtable.get_size_bytes(), 14);
    assert_eq!(memtable.get(b"key"), Some(b"three".to_vec()));
    assert_eq!(memtable.put(b"key", b""), Ok(()));
    assert_eq!(memtable.get(b"key"), Some(vec![]));
    assert_eq!(memtable.get(b"other"), None);
}

#[test]
fn memtable_scans_in_byte_order_within_bounds() {
    let mut memtable = MemTable::new(0);
    for key in ["b", "a", "c", "ab", "d"] {
        memtable.put(key.as_bytes(), b"v").unwrap();
    }
    memtable.put(&[0xff], b"v").unwrap();
    memtable.put(&[0x00], b"v").unwrap();
    let all = drain(&mut memtable.scan(Bound::Unbounded, Bound::Unbounded));
    assert_eq!(
        all,
        vec![vec![0x00], b"a".to_vec(), b"ab".to_vec(), b"b".to_vec(), b"c".to_vec(),
            b"d".to_vec(), vec![0xff]]
    );
    let some = drain(&mut memtable.scan(Bound::Included(b"ab"), Bound::Excluded(b"d")));
    assert_eq!(some, vec![b"ab".to_vec(), b"b".to_vec(), b"c".to_vec()]);
    let some = drain(&mut memtable.scan(Bound::Excluded(b"ab"), Bound::Included(b"d")));
    assert_eq!(some, vec![b"b".to_vec(), b"c".to_vec(), b"d".to_vec()]);
    // bounds that cross hold nothing
    let none = drain(&mut memtable.scan(Bound::Included(b"c"), Bound::Included(b"a")));
    assert!(none.is_empty());
    let none = drain(&mut memtable.scan(Bound::Excluded(b"c"), Bound::Excluded(b"c")));
    assert!(none.is_empty());
}

#[test]
fn memtable_cursor_keeps_what_it_saw() {
    let mut memtable = MemTable::new(0);
    memtable.put(b"a", b"1").unwrap();
    let mut it = memtable.scan(Bound::Unbounded, Bound::Unbounded);
    memtable.put(b"b", b"2").unwrap();
    assert!(it.is_valid());
    assert_eq!(it.next(), Some(entry("a", "1")));
    assert_eq!(it.peek(), None);
    assert_eq!(it.next(), None);
    assert!(it.is_valid());
}

#[test]
fn memtable_flush_adds_entries_in_key_order() {
    let mut memtable = MemTable::new(0);
    for key in ["k3", "k1", "k2"] {
        memtable.put(key.as_bytes(), key.as_bytes()).unwrap();
    }
    let mut sst_builder = SSTBuilder::new(25);
    assert_eq!(memtable.flush(&mut sst_builder), Ok(()));
    let sst = sst_builder.build(9, None).unwrap();
    let mut it = SSTIterator::create_and_seek_to_first(Arc::new(sst)).unwrap();
    assert_eq!(it.next(), Some(entry("k1", "k1")));
    assert_eq!(it.next(), Some(entry("k2", "k2")));
    assert_eq!(it.next(), Some(entry("k3", "k3")));
    assert_eq!(it.next(), None);
}

#[test]
fn memtable_flush_stops_at_an_entry_that_cannot_be_recorded() {
    let mut memtable = MemTable::new(0);
    memtable.put(b"a", b"1").unwrap();
    memtable.put(&vec![b'b'; 70000], b"2").unwrap();
    memtable.put(b"c", b"3").unwrap();
    let mut sst_builder = SSTBuilder::new(16);
    assert_eq!(memtable.flush(&mut sst_builder), Err(LsmError::SizeOverflow));
    let sst = sst_builder.build(0, None).unwrap();
    let mut it = SSTIterator::create_and_seek_to_first(Arc::new(sst)).unwrap();
    assert_eq!(it.next(), Some(entry("a", "1")));
    assert_eq!(it.next(), None);
}

#[test]
fn memtable_clone_has_a_map_of_its_own() {
    let mut memtable = MemTable::new(4);
    memtable.put(b"b", b"2").unwrap();
    memtable.put(b"a", b"1").unwrap();
    let mut copy = memtable.clone();
    assert_eq!(copy.get_id(), 4);
    assert_eq!(copy.get_size_bytes(), 4);
    assert!(copy.is_mutable());
    assert_eq!(copy.get(b"a"), Some(b"1".to_vec()));
    assert_eq!(copy.get(b"b"), Some(b"2".to_vec()));
    copy.put(b"c", b"3").unwrap();
    assert_eq!(memtable.get(b"c"), None);
    memtable.freeze().unwrap();
    assert!(!memtable.clone().is_mutable());
    assert!(copy.is_mutable());
}
