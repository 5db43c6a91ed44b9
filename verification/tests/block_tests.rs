use mini_lsm::block::builder::BlockBuilder;
use mini_lsm::block::iterator::BlockIterator;
use mini_lsm::block::Block;
use mini_lsm::iterator::StorageIterator;
use mini_lsm::kv::kv_pair::KeyValuePair;
use mini_lsm::kv::timestamped_key::TimestampedKey;
use std::sync::Arc;

fn kv(key: &str, value: &str) -> KeyValuePair {
    KeyValuePair {
        key: TimestampedKey::new(key.as_bytes().into()),
        value: value.as_bytes().into(),
    }
}

#[test]
fn block_test_encode_decode() {
    let mut data = vec![0, 2];
    data.extend("k1".as_bytes());
    data.extend(vec![0, 2]);
    data.extend("v1".as_bytes());
    data.extend(vec![0, 2]);
    data.extend("k2".as_bytes());
    data.extend(vec![0, 2]);
    data.extend("v2".as_bytes());
    let block = Block::new(data.clone(), vec![0, 8], 16);
    let mut expected = data.clone(); // data block
    expected.extend(vec![0, 0, 0, 8, 0, 16]); // offset block

    let actual = block.encode();
    assert_eq!(actual, expected);

    let decoded_block = Block::decode(actual);
    assert_eq!(block, decoded_block);
}

#[test]
fn test_blockbuilder_build() {
    let mut block_builder = BlockBuilder::new(32);
    assert!(block_builder.add(kv("k1", "v1")).is_ok());
    assert!(block_builder.add(kv("k2", "v2")).is_ok());
    let estimated_size = block_builder.get_block_size();

    let actual = block_builder.build();

    let mut expected_data = vec![0, 2];
    expected_data.extend("k1".as_bytes());
    expected_data.extend(vec![0, 2]);
    expected_data.extend("v1".as_bytes());
    expected_data.extend(vec![0, 1, 0, 1]);
    expected_data.extend("2".as_bytes());
    expected_data.extend(vec![0, 2]);
    expected_data.extend("v2".as_bytes());
    let expected = Block::new(expected_data, vec![0, 8], 17);
    assert_eq!(actual, expected);

    // check that our calculated size is correct
    assert_eq!(estimated_size, actual.encode().len())
}

#[test]
fn test_blockbuilder_check_block_size() {
    let mut block_builder = BlockBuilder::new(12);
    assert!(block_builder.add(kv("k1", "v1")).is_ok());
    assert!(block_builder.add(kv("k2", "v2")).is_err());
}

#[test]
fn block_iterator_test_create_and_seek_to_first() {
    let mut block_builder = BlockBuilder::new(32);
    assert!(block_builder.add(kv("k1", "v1")).is_ok());
    assert!(block_builder.add(kv("k2", "v2")).is_ok());

    let block = Arc::new(block_builder.build());

    let mut block_iterator = BlockIterator::create_and_seek_to_first(block);
    assert_eq!(block_iterator.first_key().as_slice(), "k1".as_bytes());
    assert!(block_iterator.peek().is_some());
    assert_eq!(
        block_iterator.peek().expect("checked for none").key.get_key(),
        "k1".as_bytes()
    );

    let mut i = 0;
    while let Some(kv) = block_iterator.next() {
        assert_eq!(kv.key.get_key(), format!("k{}", i + 1).as_bytes());
        i += 1;
    }
    assert_eq!(i, 2);
}

#[test]
fn block_iterator_test_seek_to_key() {
    let mut block_builder = BlockBuilder::new(50);
    assert!(block_builder.add(kv("k1", "v1")).is_ok());
    assert!(block_builder.add(kv("k3", "v3")).is_ok());
    assert!(block_builder.add(kv("k4", "v4")).is_ok());

    let block = Arc::new(block_builder.build());

    let mut block_iterator = BlockIterator::create_and_seek_to_first(block.clone());
    // not present in block
    let key = TimestampedKey::new("k2".as_bytes().to_vec());
    block_iterator.seek_to_key(key.clone());
    assert!(block_iterator.peek().is_some());
    // seek should return first element that is greater than or equal to k2
    assert_eq!(
        block_iterator.peek().expect("checked for none").key.get_key(),
        "k3".as_bytes()
    );

    block_iterator = BlockIterator::create_and_seek_to_key(block.clone(), key.clone());
    assert!(block_iterator.peek().is_some());
    assert_eq!(
        block_iterator.peek().expect("checked for none").key.get_key(),
        "k3".as_bytes()
    );
}

#[test]
fn block_prefix_compression_layout() {
    let mut block_builder = BlockBuilder::new(32);
    assert_eq!(block_builder.add(kv("k1", "v1")), Ok(()));
    assert_eq!(block_builder.add(kv("k2", "v2")), Ok(()));
    let block = block_builder.build();
    assert_eq!(
        block.data().as_slice(),
        &[0, 2, b'k', b'1', 0, 2, b'v', b'1', 0, 1, 0, 1, b'2', 0, 2, b'v', b'2']
    );
    assert_eq!(block.offsets().as_slice(), &[0, 8]);
    assert_eq!(block.end_of_data_offset(), 17);
    assert_eq!(block.len(), 2);
    assert_eq!(block.get_first_key(), b"k1".to_vec());
}

#[test]
fn block_builder_sizes() {
    let mut block_builder = BlockBuilder::new(24);
    assert!(block_builder.is_empty());
    assert_eq!(block_builder.get_block_size(), 2);
    // the cost of a first entry
    assert_eq!(block_builder.get_block_size_with_kv(&kv("k1", "v1")), 10);
    assert_eq!(block_builder.add(kv("k1", "v1")), Ok(()));
    assert!(!block_builder.is_empty());
    assert_eq!(block_builder.get_block_size(), 12);
    // the serialized size and the cost of a later entry
    assert_eq!(block_builder.get_block_size_with_kv(&kv("k2", "v2")), 24);
    // 24 does not exceed the target
    assert_eq!(block_builder.add(kv("k2", "v2")), Ok(()));
    assert_eq!(block_builder.get_block_size(), 23);
    assert_eq!(block_builder.add(kv("k3", "v3")), Err(mini_lsm::error::LsmError::BlockFull));
    // a refused entry leaves the builder as it was
    assert_eq!(block_builder.get_block_size(), 23);
    assert_eq!(block_builder.build().len(), 2);
}

#[test]
fn block_builder_takes_a_first_entry_of_any_size() {
    let mut block_builder = BlockBuilder::new(0);
    assert_eq!(block_builder.add(kv("a-long-key", "a-long-value")), Ok(()));
    assert_eq!(
        block_builder.add(kv("b", "")),
        Err(mini_lsm::error::LsmError::BlockFull)
    );
}

#[test]
fn block_builder_refuses_what_sixteen_bits_cannot_record() {
    let mut block_builder = BlockBuilder::new(1 << 20);
    let long = KeyValuePair { key: TimestampedKey::new(vec![7; 65536]), value: vec![] };
    assert_eq!(block_builder.add(long), Err(mini_lsm::error::LsmError::SizeOverflow));
    let long_value = KeyValuePair { key: TimestampedKey::new(vec![7]), value: vec![1; 65536] };
    assert_eq!(block_builder.add(long_value), Err(mini_lsm::error::LsmError::SizeOverflow));
    assert!(block_builder.is_empty());
    // the entry region would pass 65535 bytes
    let big = KeyValuePair { key: TimestampedKey::new(vec![7; 40000]), value: vec![] };
    assert_eq!(block_builder.add(big), Ok(()));
    let more = KeyValuePair { key: TimestampedKey::new(vec![8; 30000]), value: vec![] };
    assert_eq!(block_builder.add(more), Err(mini_lsm::error::LsmError::SizeOverflow));
    assert_eq!(block_builder.build().len(), 1);
}

#[test]
fn block_round_trip_and_iteration() {
    let entries = [("apple", "1"), ("apricot", ""), ("banana", "333"), ("bandana", "4")];
    let mut block_builder = BlockBuilder::new(1024);
    for (k, v) in entries {
        assert_eq!(block_builder.add(kv(k, v)), Ok(()));
    }
    let block = block_builder.build();
    let decoded = Block::decode(block.encode());
    assert_eq!(decoded, block);
    let mut it = BlockIterator::create_and_seek_to_first(Arc::new(decoded));
    assert!(it.is_valid());
    for (k, v) in entries {
        assert_eq!(it.peek(), Some(kv(k, v)));
        assert_eq!(it.next(), Some(kv(k, v)));
    }
    assert_eq!(it.peek(), None);
    assert_eq!(it.next(), None);
    assert_eq!(it.next(), None);
}

#[test]
fn block_seek_lands_on_the_lower_bound() {
    let mut block_builder = BlockBuilder::new(1024);
    for k in ["b", "d", "f", "h"] {
        assert_eq!(block_builder.add(kv(k, "v")), Ok(()));
    }
    let block = Arc::new(block_builder.build());
    let cases = [("a", Some("b")), ("b", Some("b")), ("c", Some("d")), ("g", Some("h")),
        ("h", Some("h")), ("i", None)];
    for (target, expected) in cases {
        let mut it = BlockIterator::create_and_seek_to_key(
            block.clone(),
            TimestampedKey::new(target.as_bytes().to_vec()),
        );
        assert_eq!(it.peek().map(|e| e.key.get_key()), expected.map(|k| k.as_bytes().to_vec()));
    }
    let mut it = BlockIterator::create_and_seek_to_key(block.clone(), TimestampedKey::new(vec![b'i']));
    assert_eq!(it.next(), None);
    it.seek_to_first();
    assert_eq!(it.next(), Some(kv("b", "v")));
}

#[test]
fn block_without_entries() {
    let block = BlockBuilder::new(16).build();
    assert_eq!(block.encode(), vec![0, 0]);
    assert_eq!(Block::decode(vec![0, 0]), block);
    let mut it = BlockIterator::create_and_seek_to_key(
        Arc::new(block),
        TimestampedKey::new(vec![1]),
    );
    assert_eq!(it.peek(), None);
    assert_eq!(it.next(), None);
}

#[test]
fn block_try_decode_rejects_what_cannot_be_decoded() {
    assert!(Block::try_decode(vec![]).is_none());
    assert!(Block::try_decode(vec![0]).is_none());
    // the end-of-data value points past the start of that value
    assert!(Block::try_decode(vec![9, 0, 2]).is_none());
    assert_eq!(Block::try_decode(vec![9, 0, 1]).unwrap(), Block::new(vec![9], vec![], 1));
    let block = Block::try_decode(vec![9, 0, 0, 0, 1]).unwrap();
    assert_eq!(block, Block::new(vec![9], vec![0], 1));
    // a last odd byte of the offsets is left out
    let odd = Block::try_decode(vec![9, 5, 0, 1]).unwrap();
    assert_eq!(odd, Block::new(vec![9], vec![], 1));
}

#[test]
fn block_iterator_stops_at_an_entry_that_cannot_be_read() {
    // one offset that points outside the entry region
    let block = Block::new(vec![0, 1, b'k', 0, 0], vec![0, 40], 5);
    let mut it = BlockIterator::create_and_seek_to_first(Arc::new(block));
    assert_eq!(it.next().map(|e| e.key.get_key()), Some(vec![b'k']));
    assert_eq!(it.next(), None);
}
