use mini_lsm::iterator::bounded_iterator::BoundedIterator;
use mini_lsm::iterator::merge_iterator::MergeIterator;
use mini_lsm::iterator::test_iterator::TestIterator;
use mini_lsm::iterator::two_merge_iterator::TwoMergeIterator;
use mini_lsm::iterator::StorageIterator;
use mini_lsm::kv::kv_pair::KeyValuePair;
use mini_lsm::kv::timestamped_key::TimestampedKey;
use mini_lsm::memory::memtable::iterator::MemTableIterator;
use mini_lsm::memory::memtable::MemTable;
use std::ops::Bound;

fn collect_all<T: StorageIterator>(it: &mut T) -> Vec<KeyValuePair> {
    let mut items = vec![];
    while let Some(kv) = it.next() {
        items.push(kv);
    }
    items
}

fn pair(key: &str, value: &str) -> KeyValuePair {
    KeyValuePair {
        key: TimestampedKey::new(key.as_bytes().into()),
        value: value.as_bytes().into(),
    }
}

fn table_of(entries: &[(&str, &str)]) -> MemTable {
    let mut memtable = MemTable::new(0);
    for (k, v) in entries {
        memtable.put(k.as_bytes(), v.as_bytes()).unwrap();
    }
    memtable
}

fn all_of(memtable: &MemTable) -> MemTableIterator {
    MemTableIterator::new(memtable, Bound::Unbounded, Bound::Unbounded)
}

#[test]
fn test_bounded_iterator() {
    let mut memtable = MemTable::new(0);
    let _ = memtable.put("k1".as_bytes(), "v1".as_bytes());
    let _ = memtable.put("k2".as_bytes(), "v2".as_bytes());

    let mut iterator = MemTableIterator::new(&memtable, Bound::Unbounded, Bound::Unbounded);
    let mut bounded_iterator = BoundedIterator::new(iterator, Bound::Included("k1".as_bytes()));
    let items: Vec<KeyValuePair> = collect_all(&mut bounded_iterator);
    assert_eq!(items.len(), 1);
    assert_eq!(items[0].key.get_key(), "k1".as_bytes());

    iterator = MemTableIterator::new(&memtable, Bound::Unbounded, Bound::Unbounded);
    bounded_iterator = BoundedIterator::new(iterator, Bound::Excluded("k1".as_bytes()));
    let items: Vec<KeyValuePair> = collect_all(&mut bounded_iterator);
    assert_eq!(items.len(), 0);

    iterator = MemTableIterator::new(&memtable, Bound::Unbounded, Bound::Unbounded);
    bounded_iterator = BoundedIterator::new(iterator, Bound::Unbounded);
    let items: Vec<KeyValuePair> = collect_all(&mut bounded_iterator);
    assert_eq!(items.len(), 2);
}

#[test]
fn merge_iterator_test_iterate() {
    let mut memtable_1 = MemTable::new(0);
    let _ = memtable_1.put("k2".as_bytes(), "v2".as_bytes());
    let mut memtable_2 = MemTable::new(0);
    let _ = memtable_2.put("k3".as_bytes(), "v3".as_bytes());
    let mut memtable_3 = MemTable::new(0);
    let _ = memtable_3.put("k1".as_bytes(), "v1".as_bytes());
    let _ = memtable_3.put("k4".as_bytes(), "v4".as_bytes());

    let memtable_iter_1 = MemTableIterator::new(&memtable_1, Bound::Unbounded, Bound::Unbounded);
    let memtable_iter_2 = MemTableIterator::new(&memtable_2, Bound::Unbounded, Bound::Unbounded);
    let memtable_iter_3 = MemTableIterator::new(&memtable_3, Bound::Unbounded, Bound::Unbounded);

    let mut merge_iterator =
        MergeIterator::new(vec![memtable_iter_1, memtable_iter_2, memtable_iter_3]);

    for i in 0..4 {
        let key = TimestampedKey::new(format!("k{}", i + 1).into());
        assert!(merge_iterator.peek().is_some_and(|kv| kv.key == key));
        assert!(merge_iterator.next().is_some_and(|kv| kv.key == key));
    }
}

#[test]
fn merge_iterator_test_not_valid() {
    let test_iter_1 = TestIterator::new(1, 2);
    let test_iter_2 = TestIterator::new(2, 1);

    let mut merge_iterator = MergeIterator::new(vec![test_iter_1, test_iter_2]);
    assert_eq!(merge_iterator.next().unwrap().key.get_key(), "k1".as_bytes());
    assert!(merge_iterator.is_valid());
    assert_eq!(merge_iterator.next().unwrap().key.get_key(), "k1".as_bytes());
    assert!(!merge_iterator.is_valid());
}

#[test]
fn test_test_iterator() {
    let test_iterator = TestIterator::new(0, 0);
    assert!(!test_iterator.is_valid());

    let mut test_iterator = TestIterator::new(0, 2);
    assert!(test_iterator.is_valid());
    assert_eq!(test_iterator.next().unwrap().key.get_key(), "k0".as_bytes());
    assert!(test_iterator.is_valid());
    assert_eq!(test_iterator.next().unwrap().key.get_key(), "k0".as_bytes());
    assert!(!test_iterator.is_valid());
}

#[test]
fn two_merge_iterator_test_iterate() {
    let mut memtable_1 = MemTable::new(0);
    let _ = memtable_1.put("k2".as_bytes(), "v2".as_bytes());
    let _ = memtable_1.put("k1".as_bytes(), "v1".as_bytes());
    let _ = memtable_1.put("k4".as_bytes(), "v4".as_bytes());
    let mut memtable_2 = MemTable::new(0);
    let _ = memtable_2.put("k3".as_bytes(), "v3".as_bytes());

    let memtable_iter_1 = MemTableIterator::new(&memtable_1, Bound::Unbounded, Bound::Unbounded);
    let memtable_iter_2 = MemTableIterator::new(&memtable_2, Bound::Unbounded, Bound::Unbounded);

    let mut two_merge_iterator = TwoMergeIterator::new(memtable_iter_1, memtable_iter_2);

    for i in 0..4 {
        let key = TimestampedKey::new(format!("k{}", i + 1).into());
        assert!(two_merge_iterator.peek().is_some_and(|kv| kv.key == key));
        assert!(two_merge_iterator.next().is_some_and(|kv| kv.key == key));
    }
}

#[test]
fn two_merge_iterator_test_not_valid() {
    let test_iter_1 = TestIterator::new(1, 2);
    let test_iter_2 = TestIterator::new(2, 1);

    let mut merge_iterator = TwoMergeIterator::new(test_iter_1, test_iter_2);
    assert_eq!(merge_iterator.next().unwrap().key.get_key(), "k1".as_bytes());
    assert!(merge_iterator.is_valid());
    assert_eq!(merge_iterator.next().unwrap().key.get_key(), "k1".as_bytes());
    assert!(!merge_iterator.is_valid());
}

#[test]
fn test_iterator_labels_with_decimal_digits() {
    let mut it = TestIterator::new(120, 1);
    assert_eq!(it.peek(), Some(pair("k120", "v120")));
    assert_eq!(it.next(), Some(pair("k120", "v120")));
    assert_eq!(it.next(), None);
    // a stream that was cut short may still show its entry
    assert_eq!(it.peek(), Some(pair("k120", "v120")));
}

#[test]
fn merge_yields_a_sorted_stream_of_all_entries() {
    let a = table_of(&[("a", "1"), ("d", "1"), ("g", "1")]);
    let b = table_of(&[("b", "2"), ("e", "2")]);
    let c = table_of(&[]);
    let d = table_of(&[("c", "4"), ("f", "4"), ("h", "4"), ("i", "4")]);
    let mut merge = MergeIterator::new(vec![all_of(&a), all_of(&b), all_of(&c), all_of(&d)]);
    assert!(merge.is_valid());
    let keys: Vec<Vec<u8>> = collect_all(&mut merge).into_iter().map(|kv| kv.key.get_key()).collect();
    let expected: Vec<Vec<u8>> =
        ["a", "b", "c", "d", "e", "f", "g", "h", "i"].iter().map(|k| k.as_bytes().to_vec()).collect();
    assert_eq!(keys, expected);
    assert_eq!(merge.peek(), None);
    assert_eq!(merge.next(), None);
    assert!(merge.is_valid());
}

#[test]
fn merge_yields_the_lower_source_first_on_equal_keys() {
    let newest = table_of(&[("k", "newest"), ("m", "0")]);
    let middle = table_of(&[("k", "a-middle")]);
    let oldest = table_of(&[("a", "2"), ("k", "oldest")]);
    let mut merge = MergeIterator::new(vec![all_of(&newest), all_of(&middle), all_of(&oldest)]);
    assert_eq!(
        collect_all(&mut merge),
        vec![pair("a", "2"), pair("k", "newest"), pair("k", "a-middle"), pair("k", "oldest"),
            pair("m", "0")]
    );
}

#[test]
fn merge_of_nothing_is_empty() {
    let mut merge: MergeIterator<MemTableIterator> = MergeIterator::new(vec![]);
    assert!(merge.is_valid());
    assert_eq!(merge.peek(), None);
    assert_eq!(merge.next(), None);
}

#[test]
fn merge_is_invalid_from_the_start_with_an_invalid_source() {
    let mut merge = MergeIterator::new(vec![TestIterator::new(1, 1), TestIterator::new(2, 0)]);
    assert!(!merge.is_valid());
    assert_eq!(merge.next(), None);
}

#[test]
fn two_merge_prefers_the_first_on_equal_keys() {
    let first = table_of(&[("a", "zz"), ("c", "zz")]);
    let second = table_of(&[("a", "aa"), ("b", "aa"), ("c", "aa")]);
    let mut merge = TwoMergeIterator::new(all_of(&first), all_of(&second));
    assert_eq!(merge.peek(), Some(pair("a", "zz")));
    assert_eq!(
        collect_all(&mut merge),
        vec![pair("a", "zz"), pair("a", "aa"), pair("b", "aa"), pair("c", "zz"), pair("c", "aa")]
    );
    assert!(merge.is_valid());
    assert_eq!(merge.next(), None);
}

#[test]
fn two_merge_drains_the_other_when_one_is_empty() {
    let first = table_of(&[]);
    let second = table_of(&[("x", "1"), ("y", "2")]);
    let mut merge = TwoMergeIterator::new(all_of(&first), all_of(&second));
    assert_eq!(collect_all(&mut merge), vec![pair("x", "1"), pair("y", "2")]);
    let mut merge = TwoMergeIterator::new(all_of(&second), all_of(&first));
    assert_eq!(collect_all(&mut merge), vec![pair("x", "1"), pair("y", "2")]);
}

#[test]
fn two_merge_is_invalid_from_the_start_with_an_invalid_side() {
    let mut merge = TwoMergeIterator::new(TestIterator::new(1, 0), TestIterator::new(2, 3));
    assert!(!merge.is_valid());
    assert_eq!(merge.next(), None);
}

#[test]
fn bounded_iterator_cuts_at_the_first_entry_past_the_bound() {
    let memtable = table_of(&[("a", "1"), ("b", "2"), ("c", "3")]);
    let mut it = BoundedIterator::new(all_of(&memtable), Bound::Included(b"b"));
    assert!(it.is_valid());
    assert_eq!(it.peek(), Some(pair("a", "1")));
    assert_eq!(it.next(), Some(pair("a", "1")));
    assert_eq!(it.next(), Some(pair("b", "2")));
    assert_eq!(it.peek(), None);
    assert_eq!(it.next(), None);
    assert!(it.is_valid());
    let mut it = BoundedIterator::new(all_of(&memtable), Bound::Excluded(b"b"));
    assert_eq!(collect_all(&mut it), vec![pair("a", "1")]);
    let mut it = BoundedIterator::new(all_of(&memtable), Bound::Excluded(b"a"));
    assert_eq!(it.peek(), None);
    let mut it = BoundedIterator::new(TestIterator::new(5, 2), Bound::Included(b"k5"));
    assert_eq!(it.next(), Some(pair("k5", "v5")));
    assert!(it.is_valid());
    assert_eq!(it.next(), Some(pair("k5", "v5")));
    assert!(!it.is_valid());
}
