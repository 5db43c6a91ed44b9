use mini_lsm::block::metadata::BlockMetadata;

#[test]
fn metadata_test_encode_decode() {
    let block_meta = BlockMetadata::new(4, "k1".as_bytes().into(), "k2".as_bytes().into());
    let mut expected = vec![0, 0, 0, 4];
    expected.extend(vec![0, 2]);
    expected.extend("k1".as_bytes());
    expected.extend(vec![0, 2]);
    expected.extend("k2".as_bytes());

    let actual = block_meta.encode();
    let encoded_size = actual.len();
    assert_eq!(actual, expected);

    let (decoded_block_meta, block_meta_size) = BlockMetadata::decode(&actual, 0);
    assert_eq!(block_meta, decoded_block_meta);
    assert_eq!(block_meta_size, encoded_size);
}

#[test]
fn test_decode_to_list() {
    let block_meta_1 = BlockMetadata::new(4, "k1".as_bytes().into(), "k2".as_bytes().into());
    let block_meta_2 = BlockMetadata::new(4, "k3".as_bytes().into(), "k4".as_bytes().into());
    let mut encoded = block_meta_1.encode();
    encoded.extend(block_meta_2.encode());

    let decoded_list = BlockMetadata::decode_to_list(&encoded);
    assert_eq!(decoded_list.len(), 2);
    assert_eq!(decoded_list[0], block_meta_1);
    assert_eq!(decoded_list[1], block_meta_2);
}

#[test]
fn metadata_offset_is_big_endian() {
    let block_meta = BlockMetadata::new(0x0102_0304, vec![], vec![9]);
    assert_eq!(block_meta.encode(), vec![1, 2, 3, 4, 0, 0, 0, 1, 9]);
    assert_eq!(block_meta.get_offset(), 0x0102_0304);
    assert_eq!(block_meta.get_first_key().len(), 0);
    assert_eq!(block_meta.get_last_key().as_slice(), &[9u8]);
}

#[test]
fn metadata_try_decode_rejects_short_input() {
    assert!(BlockMetadata::try_decode(&[0, 0, 0, 4, 0], 0).is_none());
    // the first key is said to have two bytes, and only one is there
    assert!(BlockMetadata::try_decode(&[0, 0, 0, 4, 0, 2, 7], 0).is_none());
    // a start beyond the end
    assert!(BlockMetadata::try_decode(&[0, 0, 0, 4, 0, 0, 0, 0], 9).is_none());
    let (meta, next) = BlockMetadata::try_decode(&[0, 0, 0, 4, 0, 0, 0, 0], 0).unwrap();
    assert_eq!(meta, BlockMetadata::new(4, vec![], vec![]));
    assert_eq!(next, 8);
}

#[test]
fn metadata_try_decode_to_list_rejects_trailing_bytes() {
    let mut encoded = BlockMetadata::new(1, vec![1], vec![2]).encode();
    assert_eq!(BlockMetadata::try_decode_to_list(&encoded).unwrap().len(), 1);
    encoded.push(0);
    assert!(BlockMetadata::try_decode_to_list(&encoded).is_none());
    assert_eq!(BlockMetadata::try_decode_to_list(&[]).unwrap().len(), 0);
}
