use mini_lsm::error::LsmError;
use mini_lsm::kv::kv_pair::KeyValuePair;
use mini_lsm::kv::timestamped_key::TimestampedKey;
use mini_lsm::lex::{compare, copy_bytes, equal, shared_prefix_len, Rank};
use mini_lsm::utils::{decimal, range_overlap, sst_file_name};
use std::ops::Bound::{Excluded, Included, Unbounded};

fn tk(key: &str) -> TimestampedKey {
    TimestampedKey::new(key.as_bytes().into())
}

#[test]
fn test_range_overlap() {
    // partial overlap
    assert!(range_overlap(Included("k1".as_bytes()), Included("k3".as_bytes()), tk("k0"), tk("k2")));
    assert!(range_overlap(Included("k0".as_bytes()), Included("k2".as_bytes()), tk("k1"), tk("k3")));
    // complete overlap
    assert!(range_overlap(Included("k1".as_bytes()), Included("k2".as_bytes()), tk("k0"), tk("k3")));
    assert!(range_overlap(Included("k0".as_bytes()), Included("k3".as_bytes()), tk("k1"), tk("k2")));
    // disjoint ranges don't overlap
    assert!(!range_overlap(Included("k0".as_bytes()), Included("k1".as_bytes()), tk("k2"), tk("k3")));
    // excluded/included edge cases
    assert!(range_overlap(Included("k0".as_bytes()), Included("k1".as_bytes()), tk("k1"), tk("k2")));
    assert!(!range_overlap(Included("k0".as_bytes()), Excluded("k1".as_bytes()), tk("k1"), tk("k2")));
}

#[test]
fn range_overlap_honours_the_lower_edge() {
    // the query begins where the target ends
    assert!(range_overlap(Included("k2".as_bytes()), Included("k9".as_bytes()), tk("k1"), tk("k2")));
    assert!(!range_overlap(Excluded("k2".as_bytes()), Included("k9".as_bytes()), tk("k1"), tk("k2")));
    assert!(!range_overlap(Included("k3".as_bytes()), Unbounded, tk("k1"), tk("k2")));
    assert!(range_overlap(Unbounded, Unbounded, tk("k1"), tk("k2")));
    assert!(range_overlap(Unbounded, Included("k1".as_bytes()), tk("k1"), tk("k2")));
    assert!(!range_overlap(Unbounded, Excluded("k1".as_bytes()), tk("k1"), tk("k2")));
    assert!(!range_overlap(Unbounded, Included("k0".as_bytes()), tk("k1"), tk("k2")));
}

#[test]
fn test_ord() {
    let tk1 = TimestampedKey::with_timestamp("k1".into(), 100);
    let tk2 = TimestampedKey::with_timestamp("k1".into(), 0);
    let tk3 = TimestampedKey::with_timestamp("k2".into(), 100);

    assert!(tk1 < tk2);
    assert!(tk1 < tk3);
    assert!(tk2 < tk3);
}

#[test]
fn timestamped_key_orders_and_compares() {
    let a = TimestampedKey::with_timestamp(vec![1, 2], 7);
    let b = a.clone();
    assert_eq!(a, b);
    assert_eq!(a.get_timestamp(), 7);
    assert!(!a.is_before(&b));
    assert!(!(a < b));
    assert!(a <= b);
    let older = TimestampedKey::with_timestamp(vec![1, 2], 3);
    assert!(a.is_before(&older));
    assert!(older > a);
    assert_ne!(a, older);
    let shorter = TimestampedKey::new(vec![1]);
    assert!(shorter.is_before(&a));
    assert_eq!(TimestampedKey::new(vec![5]).get_timestamp(), 0);
}

#[test]
fn key_value_pairs_compare_by_all_parts() {
    let a = KeyValuePair { key: tk("k"), value: vec![1] };
    let b = KeyValuePair { key: tk("k"), value: vec![1] };
    let c = KeyValuePair { key: tk("k"), value: vec![2] };
    assert_eq!(a, b);
    assert_eq!(a.clone(), a);
    assert_ne!(a, c);
}

#[test]
fn bytes_compare_lexicographically() {
    assert_eq!(compare(b"", b""), Rank::Same);
    assert_eq!(compare(b"", b"a"), Rank::Before);
    assert_eq!(compare(b"a", b""), Rank::After);
    assert_eq!(compare(b"ab", b"abc"), Rank::Before);
    assert_eq!(compare(b"abd", b"abc"), Rank::After);
    assert_eq!(compare(&[0x7f], &[0x80]), Rank::Before);
    assert_eq!(compare(&[0xff], &[0x00, 0x01]), Rank::After);
    assert_eq!(shared_prefix_len(b"hello", b"help"), 3);
    assert_eq!(shared_prefix_len(b"", b"help"), 0);
    assert_eq!(shared_prefix_len(b"same", b"same"), 4);
    assert!(equal(b"same", b"same"));
    assert!(!equal(b"same", b"sama"));
    assert!(!equal(b"same", b"sam"));
    assert_eq!(copy_bytes(b"abc"), b"abc".to_vec());
}

#[test]
fn decimal_and_file_names() {
    assert_eq!(decimal(0), b"0".to_vec());
    assert_eq!(decimal(7), b"7".to_vec());
    assert_eq!(decimal(10), b"10".to_vec());
    assert_eq!(decimal(65535), b"65535".to_vec());
    assert_eq!(sst_file_name(0), b"00000.sst".to_vec());
    assert_eq!(sst_file_name(42), b"00042.sst".to_vec());
    assert_eq!(sst_file_name(99999), b"99999.sst".to_vec());
    assert_eq!(sst_file_name(123456), b"123456.sst".to_vec());
}

#[test]
fn every_error_has_a_message() {
    assert_eq!(LsmError::KeyNotFound.message(), "key cannot be deleted because it does not exist");
    assert_eq!(LsmError::MemtableImmutable.message(), "cannot modify immutable table");
    assert_eq!(LsmError::BlockFull.message(), "max block size reached");
    assert_eq!(LsmError::SizeOverflow.message(), "length does not fit the format");
    assert_eq!(LsmError::IoError.message(), "read outside the file image");
    assert_eq!(LsmError::ChecksumMismatch.message(), "checksum mismatch");
}
