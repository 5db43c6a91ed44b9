use bitvec::order::Lsb0;
use bitvec::vec::BitVec;
use mini_lsm::kv::timestamped_key::TimestampedKey;
use mini_lsm::table::bloom::BloomFilter;

#[test]
fn test_build_from_keys() {
    let k1 = TimestampedKey::new("hello".as_bytes().into());
    let k2 = TimestampedKey::new("world".as_bytes().into());
    let bloom_filter = BloomFilter::from_keys(vec![k1.clone(), k2.clone()]);

    // optimal m is 20
    assert_eq!(bloom_filter.num_bits(), 24); // 8 * ceil(20 / 8)
    assert_eq!(bloom_filter.num_hashes(), 8);

    assert!(bloom_filter.maybe_contains(&k1.get_key()));
    assert!(bloom_filter.maybe_contains(&k2.get_key()));
    assert!(!bloom_filter.maybe_contains("not here".as_bytes()));
}

#[test]
fn bloom_test_encode_decode() {
    let k1 = TimestampedKey::new("hello".as_bytes().into());
    let k2 = TimestampedKey::new("world".as_bytes().into());
    let bloom_filter = BloomFilter::from_keys(vec![k1, k2]);
    let encoded = bloom_filter.encode();
    let k = *encoded.last().unwrap();
    assert_eq!(k, bloom_filter.num_hashes());
    let expected: Vec<bool> = BitVec::<u8, Lsb0>::from_slice(&encoded[..encoded.len() - 1])
        .iter()
        .map(|bit| *bit)
        .collect();
    assert_eq!(expected, bloom_filter.to_bits());

    let decoded = BloomFilter::decode(encoded);
    assert_eq!(decoded.to_bits(), bloom_filter.to_bits());
    assert_eq!(decoded.num_hashes(), bloom_filter.num_hashes());
}

#[test]
fn bloom_sizes_follow_the_formula() {
    assert_eq!(BloomFilter::get_bit_arr_len(0), 0);
    assert_eq!(BloomFilter::get_bit_arr_len(1), 16);
    assert_eq!(BloomFilter::get_bit_arr_len(2), 24);
    assert_eq!(BloomFilter::get_bit_arr_len(3), 32);
    assert_eq!(BloomFilter::get_bit_arr_len(10), 96);
    assert_eq!(BloomFilter::get_bit_arr_len(100), 960);
    assert_eq!(BloomFilter::get_bit_arr_len(1000), 9592);
    assert_eq!(BloomFilter::checked_bit_arr_len(1000), Some(9592));
    assert_eq!(BloomFilter::checked_bit_arr_len(usize::MAX), None);
    assert_eq!(BloomFilter::get_num_hash_functions(0, 0), 0);
    assert_eq!(BloomFilter::get_num_hash_functions(16, 1), 11);
    assert_eq!(BloomFilter::get_num_hash_functions(24, 2), 8);
    assert_eq!(BloomFilter::get_num_hash_functions(32, 3), 7);
    assert_eq!(BloomFilter::get_num_hash_functions(usize::MAX, 1), 255);
}

#[test]
fn bloom_sets_the_bits_of_the_probes() {
    let key = "hello".as_bytes();
    let bloom_filter = BloomFilter::from_keys(vec![TimestampedKey::new(key.to_vec())]);
    let m = bloom_filter.num_bits();
    let k = bloom_filter.num_hashes();
    assert_eq!(m, 16);
    assert_eq!(k, 11);
    let hash = xxhash_rust::xxh3::xxh3_64(key);
    let h1 = (hash >> 32) as u32;
    let h2 = hash as u32;
    let mut expected = vec![false; m];
    let mut probe = h1;
    for _ in 0..k {
        expected[(probe % (m as u32)) as usize] = true;
        probe = probe.wrapping_add(h2);
    }
    assert_eq!(bloom_filter.to_bits(), expected);
}

#[test]
fn bloom_encodes_least_significant_bit_first() {
    // 0b0000_0101 and 0b1000_0000, then k = 3
    let decoded = BloomFilter::decode(vec![5, 128, 3]);
    assert_eq!(decoded.num_bits(), 16);
    assert_eq!(decoded.num_hashes(), 3);
    let bits = decoded.to_bits();
    let set: Vec<usize> = (0..16).filter(|i| bits[*i]).collect();
    assert_eq!(set, vec![0, 2, 15]);
    assert_eq!(decoded.encode(), vec![5, 128, 3]);
}

#[test]
fn bloom_has_no_false_negatives() {
    let mut keys = vec![];
    for i in 0..200 {
        keys.push(TimestampedKey::new(format!("key-{}", i).into_bytes()));
    }
    let bloom_filter = BloomFilter::from_keys(keys.clone());
    assert_eq!(bloom_filter.num_bits() % 8, 0);
    assert!(bloom_filter.num_bits() >= 1918);
    for key in keys {
        assert!(bloom_filter.maybe_contains(&key.get_key()));
    }
}

#[test]
fn bloom_without_keys_holds_everything() {
    let bloom_filter = BloomFilter::from_keys(vec![]);
    assert_eq!(bloom_filter.num_bits(), 0);
    assert_eq!(bloom_filter.num_hashes(), 0);
    assert!(bloom_filter.maybe_contains("anything".as_bytes()));
    assert_eq!(bloom_filter.encode(), vec![0]);
    assert!(BloomFilter::try_decode(vec![]).is_none());
    assert!(BloomFilter::try_from_keys(vec![]).is_some());
}
