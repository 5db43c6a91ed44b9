use bitvec::field::BitField;
use bitvec::order::Lsb0;
use bitvec::vec::BitVec;
use crate::kv::timestamped_key::TimestampedKey;
use vstd::prelude::*;

verus! {

/// A bit array: a `BitVec` of `bitvec` over bytes, which counts its bits from
/// the least significant bit of each byte.
#[verifier::external_body]
pub struct BitArray {
    bits: BitVec<u8, Lsb0>,
}

/// The bits that a bit array holds, in order.
pub uninterp spec fn bits_of(v: BitArray) -> Seq<bool>;

/// The 64-bit XXH3 hash of a byte string, with the default secret and no
/// seed.
pub uninterp spec fn xxh3_64_of(input: Seq<u8>) -> u64;

/// The longest bit array that `bitvec` can hold.
pub open spec fn max_bits() -> int {
    usize::MAX as int / 8
}

/// The number that up to eight bits spell, the first bit the least
/// significant.
pub open spec fn pack_bits(bits: Seq<bool>) -> int {
    (if 0 < bits.len() && bits[0] { 1int } else { 0 })
    + (if 1 < bits.len() && bits[1] { 2int } else { 0 })
    + (if 2 < bits.len() && bits[2] { 4int } else { 0 })
    + (if 3 < bits.len() && bits[3] { 8int } else { 0 })
    + (if 4 < bits.len() && bits[4] { 16int } else { 0 })
    + (if 5 < bits.len() && bits[5] { 32int } else { 0 })
    + (if 6 < bits.len() && bits[6] { 64int } else { 0 })
    + (if 7 < bits.len() && bits[7] { 128int } else { 0 })
}

/// Bit `i` of a byte, bit 0 the least significant.
pub open spec fn bit_of_byte(b: u8, i: int) -> bool {
    if i == 0 {
        b % 2 == 1
    } else if i == 1 {
        b / 2 % 2 == 1
    } else if i == 2 {
        b / 4 % 2 == 1
    } else if i == 3 {
        b / 8 % 2 == 1
    } else if i == 4 {
        b / 16 % 2 == 1
    } else if i == 5 {
        b / 32 % 2 == 1
    } else if i == 6 {
        b / 64 % 2 == 1
    } else {
        b / 128 % 2 == 1
    }
}

/// The bits of a byte string: eight for each byte, in the order of the
/// bytes, each byte's least significant bit first.
pub open spec fn bits_of_bytes(bytes: Seq<u8>) -> Seq<bool> {
    Seq::new(8 * bytes.len(), |i: int| bit_of_byte(bytes[i / 8], i % 8))
}

/// `BitVec::repeat` with `false`: a bit array of `len` zero bits.
#[verifier::external_body]
fn bits_zeroed(len: usize) -> (v: BitArray)
    requires
        len <= max_bits(),
    ensures
        bits_of(v) == Seq::new(len as nat, |i: int| false),
{
    BitArray { bits: BitVec::repeat(false, len) }
}

/// `BitVec::len`: the number of bits.
#[verifier::external_body]
fn bits_len(v: &BitArray) -> (n: usize)
    ensures
        n == bits_of(*v).len(),
{
    v.bits.len()
}

/// `BitSlice::set` with `true`: sets one bit and leaves the others.
#[verifier::external_body]
fn bits_set(v: &mut BitArray, index: usize)
    requires
        index < bits_of(*old(v)).len(),
    ensures
        bits_of(*final(v)) == bits_of(*old(v)).update(index as int, true),
{
    v.bits.set(index, true);
}

/// Indexing a bit array: the bit at `index`.
#[verifier::external_body]
fn bits_get(v: &BitArray, index: usize) -> (b: bool)
    requires
        index < bits_of(*v).len(),
    ensures
        b == bits_of(*v)[index as int],
{
    v.bits[index]
}

/// `BitField::load_le` on the bits from `start` up to `end`: the number they
/// spell, the first bit the least significant.
#[verifier::external_body]
fn bits_load(v: &BitArray, start: usize, end: usize) -> (b: u8)
    requires
        start < end <= bits_of(*v).len(),
        end - start <= 8,
    ensures
        b == pack_bits(bits_of(*v).subrange(start as int, end as int)),
{
    v.bits[start..end].load_le::<u8>()
}

/// `BitVec::from_slice`: the bit array over a copy of `bytes`.
#[verifier::external_body]
fn bits_from_bytes(bytes: &[u8]) -> (v: BitArray)
    requires
        8 * bytes@.len() <= max_bits(),
    ensures
        bits_of(v) == bits_of_bytes(bytes@),
{
    BitArray { bits: BitVec::from_slice(bytes) }
}

/// `xxh3_64` of `xxhash_rust`: the 64-bit XXH3 hash of `input`.
#[verifier::external_body]
fn xxh3_64(input: &[u8]) -> (h: u64)
    ensures
        h == xxh3_64_of(input@),
{
    xxhash_rust::xxh3::xxh3_64(input)
}



/// What a bloom filter holds: its bits and the number of probes for each key.
pub struct BloomView {
    pub bits: Seq<bool>,
    pub k: u8,
}

/// The numerator over `SCALE` of the bits needed for each key at a false
/// positive rate of one in a hundred: just above `-ln(0.01) / (ln 2)^2`.
pub const BITS_PER_KEY_SCALED: u128 = 9_585_058_377_367_440;

/// The numerator over `SCALE` of the natural logarithm of two, rounded down.
pub const LN_2_SCALED: u128 = 693_147_180_559_945;

/// The denominator of the two scaled constants.
pub const SCALE: u128 = 1_000_000_000_000_000;

/// The length in bits of the filter for `n` keys: the bits needed for `n`
/// keys, rounded up to a whole number and then to a multiple of eight.
pub open spec fn bit_array_len(n: nat) -> nat {
    let needed = (n * BITS_PER_KEY_SCALED + SCALE - 1) / (SCALE as int);
    (((needed + 7) / 8) * 8) as nat
}

/// The number of probes for each key in a filter of `m` bits for `n` keys:
/// `m / n` times the natural logarithm of two, rounded to the nearest whole
/// number and held to a byte; zero where there are no keys.
pub open spec fn hash_count(m: nat, n: nat) -> u8 {
    if n == 0 {
        0
    } else {
        let rounded = (2 * m * LN_2_SCALED + n * SCALE) / (2 * n * SCALE);
        if rounded > 255 {
            255
        } else {
            rounded as u8
        }
    }
}

/// The position of probe `i` in a filter of `m` bits for a key with hash
/// `h`: the upper half of the hash plus `i` times its lower half, wrapped to
/// 32 bits, modulo `m`.
pub open spec fn probe(h: u64, m: int, i: int) -> int {
    ((h / 0x1_0000_0000 + i * (h % 0x1_0000_0000)) % 0x1_0000_0000) % m
}

/// The bits after the first `count` probes of a key with hash `h` are set;
/// no bits stay no bits.
pub open spec fn with_probes(bits: Seq<bool>, h: u64, count: int) -> Seq<bool>
    decreases count,
{
    if count <= 0 || bits.len() == 0 {
        bits
    } else {
        with_probes(bits, h, count - 1).update(probe(h, bits.len() as int, count - 1), true)
    }
}

/// The bits after `k` probes of each of `keys` are set.
pub open spec fn with_keys(bits: Seq<bool>, keys: Seq<Seq<u8>>, k: int) -> Seq<bool>
    decreases keys.len(),
{
    if keys.len() == 0 {
        bits
    } else {
        with_probes(with_keys(bits, keys.drop_last(), k), xxh3_64_of(keys.last()), k)
    }
}

/// Whether a filter may hold `key`: it has no bits, or none of the bits that
/// the key's probes name is zero.
pub open spec fn may_contain(v: BloomView, key: Seq<u8>) -> bool {
    v.bits.len() == 0 || forall|i: int|
        0 <= i < v.k ==> #[trigger] v.bits[probe(xxh3_64_of(key), v.bits.len() as int, i)]
}

/// The filter built for `keys`.
pub open spec fn filter_of(keys: Seq<Seq<u8>>) -> BloomView {
    let m = bit_array_len(keys.len());
    let k = hash_count(m, keys.len());
    BloomView { bits: with_keys(Seq::new(m, |i: int| false), keys, k as int), k }
}

/// The number of bytes that hold `n` bits.
pub open spec fn byte_count(n: int) -> int {
    (n + 7) / 8
}

/// The bytes of a bit string: each eight bits packed into one byte, the
/// first bit the least significant; the last byte may hold fewer bits.
pub open spec fn bytes_of_bits(bits: Seq<bool>) -> Seq<u8> {
    Seq::new(
        byte_count(bits.len() as int) as nat,
        |j: int|
            pack_bits(
                bits.subrange(8 * j, if 8 * j + 8 <= bits.len() {
                    8 * j + 8
                } else {
                    bits.len() as int
                }),
            ) as u8,
    )
}

/// The serialized form of a filter: its bits as bytes, then the number of
/// probes.
pub open spec fn encode_bloom(v: BloomView) -> Seq<u8> {
    bytes_of_bits(v.bits).push(v.k)
}

/// The filter that `bytes` spells.
pub open spec fn decode_bloom(bytes: Seq<u8>) -> BloomView {
    BloomView { bits: bits_of_bytes(bytes.drop_last()), k: bytes.last() }
}

/// Whether `bytes` can be decoded into a filter: it holds the number of
/// probes, and no more bits than a bit array can hold.
pub open spec fn bloom_decodable(bytes: Seq<u8>) -> bool {
    bytes.len() >= 1 && 8 * (bytes.len() - 1) <= max_bits()
}

/// Setting a key's probes leaves the length of the bits, clears no bit, and
/// sets each of the probes.
pub proof fn lemma_with_probes(bits: Seq<bool>, h: u64, count: int)
    requires
        bits.len() > 0,
    ensures
        with_probes(bits, h, count).len() == bits.len(),
        forall|j: int| 0 <= j < bits.len() && bits[j] ==> #[trigger] with_probes(bits, h, count)[j],
        forall|i: int|
            0 <= i < count ==> #[trigger] with_probes(bits, h, count)[probe(
                h,
                bits.len() as int,
                i,
            )],
        forall|i: int| 0 <= i ==> 0 <= #[trigger] probe(h, bits.len() as int, i) < bits.len(),
    decreases count,
{
    assert forall|i: int| 0 <= i implies 0 <= #[trigger] probe(h, bits.len() as int, i)
        < bits.len() by {
        vstd::arithmetic::div_mod::lemma_mod_bound(
            (h / 0x1_0000_0000 + i * (h % 0x1_0000_0000)) % 0x1_0000_0000,
            bits.len() as int,
        );
    }
    if count > 0 {
        lemma_with_probes(bits, h, count - 1);
        let prev = with_probes(bits, h, count - 1);
        let p = probe(h, bits.len() as int, count - 1);
        assert(0 <= p < bits.len());
        assert forall|i: int| 0 <= i < count implies #[trigger] with_probes(bits, h, count)[probe(
            h,
            bits.len() as int,
            i,
        )] by {
            if i < count - 1 {
                assert(prev[probe(h, bits.len() as int, i)]);
            }
        }
    }
}

/// Setting the probes of several keys leaves the length of the bits and
/// clears no bit.
pub proof fn lemma_with_keys(bits: Seq<bool>, keys: Seq<Seq<u8>>, k: int)
    requires
        bits.len() > 0,
    ensures
        with_keys(bits, keys, k).len() == bits.len(),
        forall|j: int| 0 <= j < bits.len() && bits[j] ==> #[trigger] with_keys(bits, keys, k)[j],
    decreases keys.len(),
{
    if keys.len() > 0 {
        lemma_with_keys(bits, keys.drop_last(), k);
        lemma_with_probes(with_keys(bits, keys.drop_last(), k), xxh3_64_of(keys.last()), k);
    }
}

/// Every probe of every key that went into the bits is set.
pub proof fn lemma_keys_are_set(bits: Seq<bool>, keys: Seq<Seq<u8>>, k: int, a: int, i: int)
    requires
        bits.len() > 0,
        0 <= a < keys.len(),
        0 <= i < k,
    ensures
        with_keys(bits, keys, k)[probe(xxh3_64_of(keys[a]), bits.len() as int, i)],
    decreases keys.len(),
{
    let before = with_keys(bits, keys.drop_last(), k);
    lemma_with_keys(bits, keys.drop_last(), k);
    lemma_with_probes(before, xxh3_64_of(keys.last()), k);
    lemma_with_probes(bits, xxh3_64_of(keys[a]), 0);
    let p = probe(xxh3_64_of(keys[a]), bits.len() as int, i);
    assert(0 <= p < bits.len());
    if a == keys.len() - 1 {
        assert(with_keys(bits, keys, k)[probe(xxh3_64_of(keys.last()), before.len() as int, i)]);
    } else {
        lemma_keys_are_set(bits, keys.drop_last(), k, a, i);
        assert(keys.drop_last()[a] == keys[a]);
        assert(before[p]);
    }
}

/// A filter has no false negatives: it may hold every key it was built for.
pub proof fn lemma_bloom_sound(keys: Seq<Seq<u8>>, a: int)
    requires
        0 <= a < keys.len(),
    ensures
        may_contain(filter_of(keys), keys[a]),
{
    let v = filter_of(keys);
    let m = bit_array_len(keys.len());
    let zeros = Seq::new(m, |i: int| false);
    if m > 0 {
        lemma_with_keys(zeros, keys, v.k as int);
        assert forall|i: int| 0 <= i < v.k implies #[trigger] v.bits[probe(
            xxh3_64_of(keys[a]),
            v.bits.len() as int,
            i,
        )] by {
            lemma_keys_are_set(zeros, keys, v.k as int, a, i);
        }
    } else {
        assert(with_keys(zeros, keys, v.k as int).len() == 0) by {
            lemma_with_keys_empty(zeros, keys, v.k as int);
        }
    }
}

/// Setting probes in no bits leaves no bits.
pub proof fn lemma_with_keys_empty(bits: Seq<bool>, keys: Seq<Seq<u8>>, k: int)
    requires
        bits.len() == 0,
    ensures
        with_keys(bits, keys, k).len() == 0,
    decreases keys.len(),
{
    if keys.len() > 0 {
        lemma_with_keys_empty(bits, keys.drop_last(), k);
        lemma_with_probes_empty(with_keys(bits, keys.drop_last(), k), xxh3_64_of(keys.last()), k);
    }
}

/// Setting a key's probes in no bits leaves no bits.
pub proof fn lemma_with_probes_empty(bits: Seq<bool>, h: u64, count: int)
    requires
        bits.len() == 0,
    ensures
        with_probes(bits, h, count).len() == 0,
    decreases count,
{
    if count > 0 {
        lemma_with_probes_empty(bits, h, count - 1);
    }
}

/// The length of a filter is a multiple of eight and at least the bits
/// needed for its keys at a false positive rate of one in a hundred.
pub proof fn lemma_bit_array_len(n: nat)
    ensures
        bit_array_len(n) % 8 == 0,
        bit_array_len(n) * SCALE >= n * BITS_PER_KEY_SCALED,
        bit_array_len(n) * SCALE < n * BITS_PER_KEY_SCALED + 8 * SCALE,
{
    let needed = (n * BITS_PER_KEY_SCALED + SCALE - 1) / (SCALE as int);
    let m = bit_array_len(n);
    assert(m >= needed && m < needed + 8 && m % 8 == 0);
    assert(needed * SCALE >= n * BITS_PER_KEY_SCALED && needed * SCALE < n * BITS_PER_KEY_SCALED
        + SCALE) by {
        vstd::arithmetic::div_mod::lemma_fundamental_div_mod(
            n * BITS_PER_KEY_SCALED + SCALE - 1,
            SCALE as int,
        );
        vstd::arithmetic::div_mod::lemma_mod_bound(
            n * BITS_PER_KEY_SCALED + SCALE - 1,
            SCALE as int,
        );
    }
}

/// Eight bits packed into a byte read back as they were.
pub proof fn lemma_pack_bits(bits: Seq<bool>, i: int)
    requires
        bits.len() == 8,
        0 <= i < 8,
    ensures
        0 <= pack_bits(bits) < 256,
        bit_of_byte(pack_bits(bits) as u8, i) == bits[i],
{
}

/// The bits of the bytes of a bit string are the bit string, where its
/// length is a multiple of eight.
pub proof fn lemma_bits_roundtrip(bits: Seq<bool>)
    requires
        bits.len() % 8 == 0,
    ensures
        bits_of_bytes(bytes_of_bits(bits)) == bits,
{
    let bytes = bytes_of_bits(bits);
    assert(bytes.len() * 8 == bits.len());
    assert forall|i: int| 0 <= i < bits.len() implies bits_of_bytes(bytes)[i] == bits[i] by {
        let j = i / 8;
        let chunk = bits.subrange(8 * j, 8 * j + 8);
        lemma_pack_bits(chunk, i % 8);
        assert(chunk[i % 8] == bits[i]);
    }
    assert(bits_of_bytes(bytes) =~= bits);
}

/// Decoding the serialized form of a filter gives the filter back, where
/// the number of its bits is a multiple of eight.
pub proof fn lemma_bloom_decode_encode(v: BloomView)
    requires
        v.bits.len() % 8 == 0,
    ensures
        decode_bloom(encode_bloom(v)) == v,
{
    lemma_bits_roundtrip(v.bits);
    assert(encode_bloom(v).drop_last() =~= bytes_of_bits(v.bits));
}



/// The byte strings of a list of keys.
pub open spec fn key_bytes(keys: Seq<TimestampedKey>) -> Seq<Seq<u8>> {
    Seq::new(keys.len(), |i: int| keys[i].bytes())
}

/// A bloom filter over the keys of one sorted table.
pub struct BloomFilter {
    bit_vec: BitArray,
    k: u8,
}

impl View for BloomFilter {
    type V = BloomView;

    closed spec fn view(&self) -> BloomView {
        BloomView { bits: bits_of(self.bit_vec), k: self.k }
    }
}

impl BloomFilter {
    /// The filter for `keys`.
    pub fn from_keys(keys: Vec<TimestampedKey>) -> (f: Self)
        requires
            bit_array_len(keys@.len()) <= max_bits(),
        ensures
            f@ == filter_of(key_bytes(keys@)),
    {
        let n = keys.len();
        let m = Self::get_bit_arr_len(n);
        let k = Self::get_num_hash_functions(m, n);
        let ghost zeros = Seq::new(m as nat, |i: int| false);
        let ghost all = key_bytes(keys@);
        let mut bit_vec = bits_zeroed(m);
        let mut a: usize = 0;
        assert(all.subrange(0, 0) =~= Seq::<Seq<u8>>::empty());
        while a < n
            invariant
                a <= n,
                n == keys@.len(),
                m == bit_array_len(n as nat),
                zeros == Seq::new(m as nat, |i: int| false),
                all == key_bytes(keys@),
                bits_of(bit_vec) == with_keys(zeros, all.subrange(0, a as int), k as int),
            decreases n - a,
        {
            let ghost before = bits_of(bit_vec);
            let ghost h = xxh3_64_of(all[a as int]);
            proof {
                lemma_bit_array_len(n as nat);
                assert(m > 0);
                lemma_with_keys(zeros, all.subrange(0, a as int), k as int);
            }
            let indices = Self::get_indices_for_key(keys[a].key_ref().as_slice(), m, k);
            let mut i: usize = 0;
            while i < indices.len()
                invariant
                    i <= indices@.len(),
                    indices@.len() == k,
                    m > 0,
                    before.len() == m,
                    forall|j: int| 0 <= j < k ==> indices@[j] == probe(h, m as int, j),
                    bits_of(bit_vec) == with_probes(before, h, i as int),
                decreases indices@.len() - i,
            {
                proof {
                    lemma_with_probes(before, h, i as int);
                    lemma_with_probes(before, h, 0);
                    assert(0 <= probe(h, before.len() as int, i as int) < before.len());
                }
                bits_set(&mut bit_vec, indices[i]);
                i += 1;
            }
            proof {
                assert(all.subrange(0, a + 1).drop_last() =~= all.subrange(0, a as int));
                assert(all.subrange(0, a + 1).last() == all[a as int]);
            }
            a += 1;
        }
        assert(all.subrange(0, n as int) =~= all);
        Self { bit_vec, k }
    }

    /// The filter for `keys`, where a bit array can hold it.
    pub fn try_from_keys(keys: Vec<TimestampedKey>) -> (r: Option<Self>)
        ensures
            r is Some <==> bit_array_len(keys@.len()) <= max_bits(),
            r matches Some(f) ==> f@ == filter_of(key_bytes(keys@)),
    {
        match Self::checked_bit_arr_len(keys.len()) {
            Some(_) => Some(Self::from_keys(keys)),
            None => None,
        }
    }

    /// The length in bits of the filter for `n` keys, where a bit array can
    /// hold it.
    pub fn checked_bit_arr_len(n: usize) -> (r: Option<usize>)
        ensures
            r is Some <==> bit_array_len(n as nat) <= max_bits(),
            r matches Some(m) ==> m == bit_array_len(n as nat),
    {
        let needed: u128 = (n as u128 * BITS_PER_KEY_SCALED + SCALE - 1) / SCALE;
        let m: u128 = (needed + 7) / 8 * 8;
        if m > (usize::MAX / 8) as u128 {
            None
        } else {
            Some(m as usize)
        }
    }

    /// The length in bits of the filter for `n` keys.
    pub fn get_bit_arr_len(n: usize) -> (m: usize)
        requires
            bit_array_len(n as nat) <= max_bits(),
        ensures
            m == bit_array_len(n as nat),
    {
        let needed: u128 = (n as u128 * BITS_PER_KEY_SCALED + SCALE - 1) / SCALE;
        ((needed + 7) / 8 * 8) as usize
    }

    /// The number of probes for each key in a filter of `m` bits for `n`
    /// keys.
    pub fn get_num_hash_functions(m: usize, n: usize) -> (k: u8)
        ensures
            k == hash_count(m as nat, n as nat),
    {
        if n == 0 {
            return 0;
        }
        let rounded: u128 = (2 * (m as u128) * LN_2_SCALED + (n as u128) * SCALE) / (2 * (n as u128)
            * SCALE);
        if rounded > 255 {
            255
        } else {
            rounded as u8
        }
    }

    /// The positions of the `k` probes of `key` in a filter of `m` bits.
    fn get_indices_for_key(key: &[u8], m: usize, k: u8) -> (indices: Vec<usize>)
        requires
            m > 0,
        ensures
            indices@.len() == k,
            forall|i: int| 0 <= i < k ==> indices@[i] == probe(xxh3_64_of(key@), m as int, i),
    {
        let hash64 = xxh3_64(key);
        let h1: u32 = (hash64 / 0x1_0000_0000) as u32;
        let h2: u32 = (hash64 % 0x1_0000_0000) as u32;
        let mut indices: Vec<usize> = Vec::new();
        let mut km_hash: u32 = h1;
        let mut i: u8 = 0;
        while i < k
            invariant
                i <= k,
                m > 0,
                h1 == hash64 / 0x1_0000_0000,
                h2 == hash64 % 0x1_0000_0000,
                km_hash == (h1 + i * h2) % 0x1_0000_0000,
                indices@.len() == i,
                forall|j: int| 0 <= j < i ==> indices@[j] == probe(hash64, m as int, j),
            decreases k - i,
        {
            let index: usize = (km_hash as usize) % m;
            indices.push(index);
            let next: u32 = ((km_hash as u64 + h2 as u64) % 0x1_0000_0000) as u32;
            proof {
                let x = h1 + i * h2;
                assert((i + 1) * h2 == i * h2 + h2) by (nonlinear_arith);
                vstd::arithmetic::div_mod::lemma_add_mod_noop(x, h2 as int, 0x1_0000_0000);
                vstd::arithmetic::div_mod::lemma_small_mod(h2 as nat, 0x1_0000_0000);
                assert(next == (h1 + (i + 1) * h2) % 0x1_0000_0000);
            }
            km_hash = next;
            i += 1;
        }
        indices
    }

    /// Whether the filter may hold `key`: `false` only where one of the
    /// key's probes names a zero bit.
    pub fn maybe_contains(&self, key: &[u8]) -> (r: bool)
        ensures
            r == may_contain(self@, key@),
    {
        let m = bits_len(&self.bit_vec);
        if m == 0 {
            return true;
        }
        let indices = Self::get_indices_for_key(key, m, self.k);
        let ghost h = xxh3_64_of(key@);
        let mut i: usize = 0;
        while i < indices.len()
            invariant
                i <= indices@.len(),
                indices@.len() == self.k,
                m == self@.bits.len(),
                m > 0,
                h == xxh3_64_of(key@),
                forall|j: int| 0 <= j < self.k ==> indices@[j] == probe(h, m as int, j),
                forall|j: int| 0 <= j < i ==> #[trigger] self@.bits[probe(h, m as int, j)],
            decreases indices@.len() - i,
        {
            proof {
                lemma_with_probes(self@.bits, h, 0);
                assert(0 <= probe(h, m as int, i as int) < m);
            }
            if !bits_get(&self.bit_vec, indices[i]) {
                assert(!self@.bits[probe(h, m as int, i as int)]);
                return false;
            }
            i += 1;
        }
        true
    }

    /// The serialized form of the filter.
    pub fn encode(&self) -> (encoded: Vec<u8>)
        ensures
            encoded@ == encode_bloom(self@),
    {
        let n = bits_len(&self.bit_vec);
        let count: usize = n / 8 + if n % 8 != 0 {
            1usize
        } else {
            0usize
        };
        assert(count == byte_count(n as int));
        let ghost all = bytes_of_bits(self@.bits);
        let mut encoded: Vec<u8> = Vec::new();
        let mut j: usize = 0;
        while j < count
            invariant
                j <= count,
                count == byte_count(n as int),
                n == self@.bits.len(),
                all == bytes_of_bits(self@.bits),
                encoded@ == all.subrange(0, j as int),
            decreases count - j,
        {
            let start = 8 * j;
            let end = if n - start >= 8 {
                start + 8
            } else {
                n
            };
            let b = bits_load(&self.bit_vec, start, end);
            encoded.push(b);
            assert(encoded@ =~= all.subrange(0, j + 1));
            j += 1;
        }
        assert(all.subrange(0, count as int) =~= all);
        encoded.push(self.k);
        encoded
    }

    /// The filter that `encoded` spells.
    pub fn decode(encoded: Vec<u8>) -> (f: Self)
        requires
            bloom_decodable(encoded@),
        ensures
            f@ == decode_bloom(encoded@),
    {
        let n = encoded.len();
        let bit_vec = bits_from_bytes(vstd::slice::slice_subrange(encoded.as_slice(), 0, n - 1));
        assert(encoded@.subrange(0, n - 1) =~= encoded@.drop_last());
        Self { bit_vec, k: encoded[n - 1] }
    }

    /// The filter that `encoded` spells, where it can be decoded.
    pub fn try_decode(encoded: Vec<u8>) -> (r: Option<Self>)
        ensures
            r is Some <==> bloom_decodable(encoded@),
            r matches Some(f) ==> f@ == decode_bloom(encoded@),
    {
        let n = encoded.len();
        if n < 1 || n - 1 > usize::MAX / 64 {
            return None;
        }
        Some(Self::decode(encoded))
    }

    /// The bits of the filter, in order.
    pub fn to_bits(&self) -> (r: Vec<bool>)
        ensures
            r@ == self@.bits,
    {
        let n = bits_len(&self.bit_vec);
        let mut r: Vec<bool> = Vec::new();
        let mut i: usize = 0;
        while i < n
            invariant
                i <= n,
                n == self@.bits.len(),
                r@ == self@.bits.subrange(0, i as int),
            decreases n - i,
        {
            r.push(bits_get(&self.bit_vec, i));
            assert(r@ =~= self@.bits.subrange(0, i + 1));
            i += 1;
        }
        assert(self@.bits.subrange(0, n as int) =~= self@.bits);
        r
    }

    /// The number of bits of the filter.
    pub fn num_bits(&self) -> (n: usize)
        ensures
            n == self@.bits.len(),
    {
        bits_len(&self.bit_vec)
    }

    /// The number of probes for each key.
    pub fn num_hashes(&self) -> (k: u8)
        ensures
            k == self@.k,
    {
        self.k
    }
}

} // verus!
