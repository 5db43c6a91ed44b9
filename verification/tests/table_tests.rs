use mini_lsm::block::builder::BlockBuilder;
use mini_lsm::block::metadata::BlockMetadata;
use mini_lsm::block::Block;
use mini_lsm::error::LsmError;
use mini_lsm::iterator::StorageIterator;
use mini_lsm::kv::kv_pair::KeyValuePair;
use mini_lsm::kv::timestamped_key::TimestampedKey;
use mini_lsm::table::block_cache::BlockCache;
use mini_lsm::table::builder::SSTBuilder;
use mini_lsm::table::file::File;
use mini_lsm::table::iterator::SSTIterator;
use mini_lsm::table::Sst;
use std::sync::Arc;

fn item(key: &str, value: &str) -> KeyValuePair {
    KeyValuePair {
        key: TimestampedKey::new(key.as_bytes().into()),
        value: value.as_bytes().into(),
    }
}

fn set_up_builder() -> SSTBuilder {
    // build a test SST with two blocks
    // - block 0 contains k1 and k2
    // - block 1 contains k3
    let mut builder: SSTBuilder = SSTBuilder::new(25);
    // add three key-value pairs
    assert!(builder.add(item("k1", "v1")).is_ok());
    assert!(builder.add(item("k2", "v2")).is_ok());
    assert!(builder.add(item("k3", "v3")).is_ok());
    builder
}

fn build_sst() -> Sst {
    let builder: SSTBuilder = set_up_builder();
    builder.build(0, None).unwrap()
}

fn build_sst_with_cache() -> (Sst, Arc<BlockCache>) {
    let builder: SSTBuilder = set_up_builder();
    let cache = Arc::new(BlockCache::new(50));
    let sst = builder.build(0, Some(cache.clone())).unwrap();
    (sst, cache)
}

fn keys_of(it: &mut SSTIterator) -> Vec<String> {
    let mut keys = vec![];
    while let Some(kv) = it.next() {
        keys.push(String::from_utf8(kv.key.get_key()).unwrap());
    }
    keys
}

#[test]
fn test_read_block() {
    let sst = build_sst();
    let mut expected_block_data = vec![];
    expected_block_data.extend(sst.read_block(0).unwrap().encode());
    expected_block_data.extend(sst.read_block(1).unwrap().encode());
    let contents = sst.file().get_contents_as_bytes();
    let actual_block_data = &contents[..expected_block_data.len()];
    assert_eq!(actual_block_data, expected_block_data);
}

#[test]
fn test_read_block_cached() {
    let (sst, cache) = build_sst_with_cache();
    let cached_block = Arc::new(Block::new(vec![], vec![], 0));
    cache.insert((0, 0), cached_block.clone());

    let read_uncached = sst.read_block(0).unwrap();
    let read_cached = sst.read_block_cached(0).unwrap();
    assert_ne!(read_uncached, read_cached);
    assert_eq!(read_cached, cached_block);
}

#[test]
fn test_get_block_index_for_key() {
    let sst = build_sst();
    assert_eq!(sst.get_block_index_for_key(&TimestampedKey::new("k1".as_bytes().into())), 0);
    assert_eq!(sst.get_block_index_for_key(&TimestampedKey::new("k2".as_bytes().into())), 0);
    assert_eq!(sst.get_block_index_for_key(&TimestampedKey::new("k3".as_bytes().into())), 1);
}

#[test]
fn test_build() {
    let mut builder: SSTBuilder = SSTBuilder::new(25);
    assert!(builder.add(item("k1", "v1")).is_ok());
    assert_eq!(builder.num_finished_blocks(), 0);
    assert!(builder.add(item("k2", "v2")).is_ok());
    assert_eq!(builder.num_finished_blocks(), 0);
    assert!(builder.add(item("k3", "v3")).is_ok());
    // new block started
    assert_eq!(builder.num_finished_blocks(), 1);
    assert!(builder.get_estimated_size() > 0);

    // try build
    let sst = builder.build(0, None).unwrap();
    let file_contents: Vec<u8> = sst.file().get_contents_as_bytes();

    // check that data size, meta size, and offset value are correct
    let bloom_offset = u32::from_be_bytes(
        file_contents[file_contents.len() - 4..].try_into().expect("chunk of size 4"),
    );
    let meta_offset = u32::from_be_bytes(
        file_contents[bloom_offset as usize - 4..bloom_offset as usize]
            .try_into()
            .expect("chunk of size 4"),
    );

    let expected_data_size = file_contents.len()
        - (file_contents.len() - bloom_offset as usize) // size of bloom filter + offset
        - 4 // size of meta_offset
        - 2 * 12; // two metadata blocks of 12 bytes each (4 for offset, 4 each for first and last key)
    // start index of meta blocks should be equal to data size in bytes
    assert_eq!(meta_offset, u32::try_from(expected_data_size).expect("must fit in 4 bytes"));

    // assert correctness of meta offset field in sst struct
    assert_eq!(meta_offset, sst.get_meta_block_offset());
}

#[test]
fn test_load_block_to_mem() {
    let mut block_builder = BlockBuilder::new(32);
    assert!(block_builder.add(item("k1", "v1")).is_ok());
    assert!(block_builder.add(item("k2", "v2")).is_ok());
    // 8 bytes for first kv pair; 9 bytes for subsequent kv pairs
    // 2 * 2 bytes per offset
    // 2 bytes for end of data offset
    let expected_block_size = 8 + 9 + 2 * 2 + 2;
    assert_eq!(block_builder.get_block_size(), expected_block_size);
    let block = block_builder.build();
    let data = block.encode();

    let file = File::create(data);

    let loaded_block = file.load_block_to_mem(0, expected_block_size.try_into().unwrap());
    assert!(loaded_block.is_ok());
    assert_eq!(loaded_block.unwrap(), block);
}

#[test]
fn test_load_meta_blocks() {
    let sst = build_sst();
    let file = sst.file();
    let bloom_filter_offset = file.get_bloom_filter_offset().unwrap();
    let meta_block_offset = file.get_meta_block_offset(bloom_filter_offset).unwrap();
    assert_eq!(meta_block_offset, 35);

    let meta_blocks = file.load_meta_blocks(meta_block_offset, bloom_filter_offset).unwrap();
    let expected_meta_1 = BlockMetadata::new(0, "k1".as_bytes().into(), "k2".as_bytes().into());
    let expected_meta_2 = BlockMetadata::new(23, "k3".as_bytes().into(), "k3".as_bytes().into());

    assert_eq!(meta_blocks.len(), 2);
    assert_eq!(meta_blocks[0], expected_meta_1);
    assert_eq!(meta_blocks[1], expected_meta_2);
}

#[test]
fn iterator_test_create_and_seek_to_first() {
    let sst = build_sst();
    // create iterator
    let mut iterator: SSTIterator = SSTIterator::create_and_seek_to_first(Arc::new(sst)).unwrap();
    assert!(iterator.peek().is_some());
    assert_eq!(iterator.peek().expect("checked for none").key.get_key(), "k1".as_bytes());
    let mut i = 0;
    while let Some(kv) = iterator.next() {
        assert_eq!(kv.key.get_key(), format!("k{}", i + 1).as_bytes());
        i += 1;
    }
    assert_eq!(i, 3);
}

#[test]
fn iterator_test_seek_to_key() {
    let sst = Arc::new(build_sst());
    // create iterator
    let mut iterator = SSTIterator::create_and_seek_to_first(sst.clone()).unwrap();
    let mut i = 0;
    while iterator.peek().is_some() {
        let expected_key = format!("k{}", i + 1);
        assert_eq!(iterator.next().unwrap().key.get_key(), expected_key.as_bytes());
        i += 1;
    }
    let key = TimestampedKey::new("k2".as_bytes().into());
    assert!(iterator.seek_to_key(key.clone()).is_ok());
    assert_eq!(iterator.peek().unwrap().key, key);

    // create and seek to key
    iterator = SSTIterator::create_and_seek_to_key(sst.clone(), key.clone()).unwrap();
    assert_eq!(iterator.peek().unwrap().key, key);
    let mut i = 0;
    while let Some(kv) = iterator.next() {
        // iteration should start from k2
        assert_eq!(kv.key.get_key(), format!("k{}", i + 2).as_bytes());
        i += 1;
    }
    assert_eq!(i, 2);
}

#[test]
fn sst_file_round_trip() {
    let sst = build_sst();
    let image = sst.file().get_contents_as_bytes();
    let reopened = Sst::open(7, File::create(image.clone()), None).unwrap();
    assert_eq!(reopened.get_id(), 7);
    assert_eq!(reopened.num_blocks(), 2);
    assert_eq!(reopened.meta_block(0), &BlockMetadata::new(0, b"k1".to_vec(), b"k2".to_vec()));
    assert_eq!(reopened.meta_block(1), &BlockMetadata::new(23, b"k3".to_vec(), b"k3".to_vec()));
    assert_eq!(reopened.get_meta_block_offset(), 35);
    assert_eq!(reopened.get_meta_block_offset(), sst.get_meta_block_offset());
    assert_eq!(reopened.bloom_filter().to_bits(), sst.bloom_filter().to_bits());
    assert_eq!(reopened.bloom_filter().num_hashes(), sst.bloom_filter().num_hashes());
    assert_eq!(reopened.bloom_filter().num_bits(), 32);
    assert_eq!(reopened.bloom_filter().num_hashes(), 7);
    for i in 0..2 {
        assert_eq!(reopened.read_block(i).unwrap(), sst.read_block(i).unwrap());
    }
    assert_eq!(reopened.get_block_index_for_key(&TimestampedKey::new(b"k2".to_vec())), 0);
    assert_eq!(reopened.get_block_index_for_key(&TimestampedKey::new(b"k3".to_vec())), 1);
    assert_eq!(reopened.get_first_key().get_key(), b"k1".to_vec());
    assert_eq!(reopened.get_last_key().get_key(), b"k3".to_vec());
    assert_eq!(reopened.file().get_size(), image.len() as u64);
    let mut it = SSTIterator::create_and_seek_to_first(Arc::new(reopened)).unwrap();
    assert_eq!(keys_of(&mut it), vec!["k1", "k2", "k3"]);
}

#[test]
fn sst_file_layout_is_byte_exact() {
    let mut builder = SSTBuilder::new(64);
    assert_eq!(builder.add(item("a", "x")), Ok(()));
    let sst = builder.build(1, None).unwrap();
    let image = sst.file().get_contents_as_bytes();
    let mut expected = vec![];
    // the block: one entry, one offset, the end-of-data value
    expected.extend([0, 1, b'a', 0, 1, b'x', 0, 0, 0, 6]);
    // the metadata record
    expected.extend([0, 0, 0, 0, 0, 1, b'a', 0, 1, b'a']);
    // the offset of the meta region
    expected.extend([0, 0, 0, 10]);
    // the bloom filter: 16 bits and 11 probes
    expected.extend(sst.bloom_filter().encode());
    assert_eq!(sst.bloom_filter().encode().len(), 3);
    assert_eq!(sst.bloom_filter().encode()[2], 11);
    // the offset of the bloom region
    expected.extend([0, 0, 0, 24]);
    assert_eq!(image, expected);
}

#[test]
fn sst_maybe_contains_key_checks_filter_and_range() {
    let sst = build_sst();
    assert!(sst.maybe_contains_key(b"k1"));
    assert!(sst.maybe_contains_key(b"k2"));
    assert!(sst.maybe_contains_key(b"k3"));
    assert!(!sst.maybe_contains_key(b"k0"));
    assert!(!sst.maybe_contains_key(b"k4"));
    assert!(!sst.maybe_contains_key(b"not here"));
}

#[test]
fn sst_block_index_for_keys_outside_and_between() {
    let mut builder = SSTBuilder::new(0);
    for key in ["b", "d", "f"] {
        assert_eq!(builder.add(item(key, "v")), Ok(()));
    }
    let sst = builder.build(0, None).unwrap();
    assert_eq!(sst.num_blocks(), 3);
    let index = |key: &str| sst.get_block_index_for_key(&TimestampedKey::new(key.as_bytes().to_vec()));
    assert_eq!(index("a"), 0);
    assert_eq!(index("b"), 0);
    assert_eq!(index("c"), 0);
    assert_eq!(index("d"), 1);
    assert_eq!(index("e"), 1);
    assert_eq!(index("f"), 2);
    assert_eq!(index("z"), 2);
}

#[test]
fn sst_iterator_crosses_blocks_with_several_entries() {
    let mut builder = SSTBuilder::new(40);
    let keys: Vec<String> = (0..30).map(|i| format!("key{:02}", i)).collect();
    for key in &keys {
        assert_eq!(builder.add(item(key, "value")), Ok(()));
    }
    let sst = Arc::new(builder.build(0, None).unwrap());
    assert!(sst.num_blocks() > 5);
    let mut it = SSTIterator::create_and_seek_to_first(sst.clone()).unwrap();
    assert_eq!(keys_of(&mut it), keys);
    assert!(it.is_valid());
    let mut it =
        SSTIterator::create_and_seek_to_key(sst.clone(), TimestampedKey::new(b"key17".to_vec()))
            .unwrap();
    assert_eq!(keys_of(&mut it), keys[17..].to_vec());
    // a key that no block holds lands on the next larger key of its block
    let mut it =
        SSTIterator::create_and_seek_to_key(sst.clone(), TimestampedKey::new(b"key".to_vec()))
            .unwrap();
    assert_eq!(it.peek().unwrap().key.get_key(), b"key00".to_vec());
    let mut it =
        SSTIterator::create_and_seek_to_key(sst.clone(), TimestampedKey::new(b"zzz".to_vec()))
            .unwrap();
    assert_eq!(it.peek(), None);
    assert_eq!(it.next(), None);
}

#[test]
fn sst_without_entries_has_one_empty_block() {
    let sst = SSTBuilder::new(16).build(3, None).unwrap();
    assert_eq!(sst.num_blocks(), 1);
    assert_eq!(sst.get_meta_block_offset(), 2);
    assert_eq!(sst.read_block(0).unwrap().len(), 0);
    assert_eq!(sst.bloom_filter().num_bits(), 0);
    let image = sst.file().get_contents_as_bytes();
    assert_eq!(
        image,
        vec![0, 0, 0, 0, 0, 0, 0, 0, 0, 0, 0, 0, 0, 2, 0, 0, 0, 0, 14]
    );
    let mut it = SSTIterator::create_and_seek_to_first(Arc::new(sst)).unwrap();
    assert_eq!(it.next(), None);
    assert!(it.is_valid());
}

#[test]
fn sst_open_rejects_a_damaged_image() {
    assert_eq!(Sst::open(0, File::create(vec![]), None).err(), Some(LsmError::IoError));
    assert_eq!(Sst::open(0, File::create(vec![0, 0, 0]), None).err(), Some(LsmError::IoError));
    // a bloom offset beyond the image
    assert_eq!(
        Sst::open(0, File::create(vec![0, 0, 0, 0, 0, 0, 0, 99]), None).err(),
        Some(LsmError::IoError)
    );
    let image = build_sst().file().get_contents_as_bytes();
    let cut = image[..image.len() - 1].to_vec();
    assert_eq!(Sst::open(0, File::create(cut), None).err(), Some(LsmError::IoError));
}

#[test]
fn file_reads_fail_outside_the_image() {
    let file = File::create(vec![0, 0, 0, 0]);
    assert_eq!(file.load_block_to_mem(0, 5).err(), Some(LsmError::IoError));
    assert_eq!(file.load_block_to_mem(3, 2).err(), Some(LsmError::IoError));
    assert_eq!(file.load_block_to_mem(0, 1).err(), Some(LsmError::IoError));
    assert_eq!(file.load_block_to_mem(0, 2).unwrap(), Block::new(vec![], vec![], 0));
    assert_eq!(file.get_bloom_filter_offset(), Ok(0));
    assert_eq!(file.get_meta_block_offset(3).err(), Some(LsmError::IoError));
    assert_eq!(file.get_meta_block_offset(4), Ok(0));
    assert_eq!(file.get_meta_block_offset(5).err(), Some(LsmError::IoError));
    assert_eq!(file.load_meta_blocks(0, 3).err(), Some(LsmError::IoError));
    assert_eq!(file.load_meta_blocks(0, 4).unwrap().len(), 0);
    assert!(file.load_bloom_filter(0).is_err());
    assert!(File::create(vec![9, 0, 0, 0, 0]).load_bloom_filter(0).is_ok());
    assert!(File::create(vec![1, 2]).get_bloom_filter_offset().is_err());
}

#[test]
fn sst_iterator_turns_invalid_when_a_block_cannot_be_read() {
    let built = build_sst();
    // the last block is said to end beyond the image
    let metas = vec![
        BlockMetadata::new(0, b"k1".to_vec(), b"k2".to_vec()),
        BlockMetadata::new(23, b"k3".to_vec(), b"k3".to_vec()),
    ];
    let image = built.file().get_contents_as_bytes();
    let broken = Sst::new(
        0,
        File::create(image.clone()),
        metas,
        9999,
        None,
        mini_lsm::table::bloom::BloomFilter::from_keys(vec![]),
    );
    assert_eq!(broken.read_block(1).err(), Some(LsmError::IoError));
    let mut it = SSTIterator::create_and_seek_to_first(Arc::new(broken)).unwrap();
    assert_eq!(it.next(), Some(item("k1", "v1")));
    assert!(it.is_valid());
    assert_eq!(it.next(), Some(item("k2", "v2")));
    assert!(!it.is_valid());
    assert_eq!(it.next(), None);
}

#[test]
fn sst_builder_refuses_an_entry_that_cannot_be_recorded() {
    let mut builder = SSTBuilder::new(32);
    assert_eq!(builder.add(item("a", "1")), Ok(()));
    let long = KeyValuePair { key: TimestampedKey::new(vec![b'b'; 65536]), value: vec![] };
    assert_eq!(builder.add(long), Err(LsmError::SizeOverflow));
    assert_eq!(builder.num_finished_blocks(), 0);
    assert_eq!(builder.add(item("c", "3")), Ok(()));
    builder.finalize_block();
    assert_eq!(builder.num_finished_blocks(), 1);
    builder.finalize_block();
    assert_eq!(builder.num_finished_blocks(), 1);
    let sst = builder.build(0, None).unwrap();
    assert_eq!(sst.num_blocks(), 1);
    let mut it = SSTIterator::create_and_seek_to_first(Arc::new(sst)).unwrap();
    assert_eq!(keys_of(&mut it), vec!["a", "c"]);
}

#[test]
fn read_block_cached_without_a_cache_reads_the_image() {
    let sst = build_sst();
    assert_eq!(sst.read_block_cached(1).unwrap(), sst.read_block(1).unwrap());
    let (cached, _cache) = build_sst_with_cache();
    assert_eq!(cached.read_block_cached(1).unwrap(), sst.read_block(1).unwrap());
    assert_eq!(cached.read_block_cached(1).unwrap(), sst.read_block(1).unwrap());
}

#[test]
fn cursors_load_blocks_through_the_cache_and_check_them() {
    let (sst, cache) = build_sst_with_cache();
    let sst = Arc::new(sst);
    let first = sst.load_block(0).unwrap();
    assert_eq!(first, sst.read_block(0).unwrap());
    // the cache now holds the block
    assert_eq!(cache.get(&(0, 0)), Some(first));
    // a block in the cache that is not that of the image is passed over
    cache.insert((0, 1), Arc::new(Block::new(vec![], vec![], 0)));
    assert_eq!(sst.read_block_cached(1).unwrap().len(), 0);
    assert_eq!(sst.load_block(1).unwrap(), sst.read_block(1).unwrap());
    let mut it = SSTIterator::create_and_seek_to_first(sst.clone()).unwrap();
    assert_eq!(keys_of(&mut it), vec!["k1", "k2", "k3"]);
}

#[test]
fn file_holds_region() {
    let file = File::create(vec![1, 2, 3, 4]);
    assert!(file.holds_region(1, 3, &[2, 3]));
    assert!(!file.holds_region(1, 3, &[2, 4]));
    assert!(!file.holds_region(1, 3, &[2]));
    assert!(!file.holds_region(3, 5, &[4]));
    assert!(!file.holds_region(3, 2, &[]));
    assert!(file.holds_region(4, 4, &[]));
}

#[test]
fn seek_between_two_blocks_stands_on_the_next_block() {
    // 25-byte blocks: k1 and k2 in the first, k4 in the second
    let mut builder = SSTBuilder::new(25);
    for key in ["k1", "k2", "k4"] {
        assert_eq!(builder.add(item(key, "v")), Ok(()));
    }
    let sst = Arc::new(builder.build(0, None).unwrap());
    assert_eq!(sst.num_blocks(), 2);
    let mut it =
        SSTIterator::create_and_seek_to_key(sst.clone(), TimestampedKey::new(b"k3".to_vec()))
            .unwrap();
    assert_eq!(it.peek(), Some(item("k4", "v")));
    assert_eq!(keys_of(&mut it), vec!["k4"]);
    let mut it = SSTIterator::create_and_seek_to_first(sst.clone()).unwrap();
    assert_eq!(it.seek_to_key(TimestampedKey::new(b"k2x".to_vec())), Ok(()));
    assert_eq!(keys_of(&mut it), vec!["k4"]);
    let mut it =
        SSTIterator::create_and_seek_to_key(sst.clone(), TimestampedKey::new(b"k0".to_vec()))
            .unwrap();
    assert_eq!(keys_of(&mut it), vec!["k1", "k2", "k4"]);
    let mut it =
        SSTIterator::create_and_seek_to_key(sst.clone(), TimestampedKey::new(b"k5".to_vec()))
            .unwrap();
    assert_eq!(it.next(), None);
    assert!(it.is_valid());
}

#[test]
fn seek_fails_when_the_next_block_cannot_be_read() {
    let built = build_sst();
    let metas = vec![
        BlockMetadata::new(0, b"k1".to_vec(), b"k2".to_vec()),
        BlockMetadata::new(23, b"k3".to_vec(), b"k3".to_vec()),
    ];
    let broken = Arc::new(Sst::new(
        0,
        File::create(built.file().get_contents_as_bytes()),
        metas,
        9999,
        None,
        mini_lsm::table::bloom::BloomFilter::from_keys(vec![]),
    ));
    let mut it = SSTIterator::create_and_seek_to_first(broken.clone()).unwrap();
    // k2x lies behind the first block, and the second cannot be read
    assert_eq!(it.seek_to_key(TimestampedKey::new(b"k2x".to_vec())), Err(LsmError::IoError));
    assert_eq!(it.peek(), Some(item("k1", "v1")));
    assert!(SSTIterator::create_and_seek_to_key(broken, TimestampedKey::new(b"k2x".to_vec()))
        .is_err());
}
