use crate::block::{
    encode_block, entries_of, entry_at, first_key_of, lemma_decode_encode, BlockView, RawEntry,
};
use crate::block::builder::{
    appended, clamp_usize, extend_bytes, fits, lemma_appended, projected_size, serialized_size,
    BlockBuilder, MAX_U16,
};
use crate::block::iterator::keys_ascend;
use crate::block::metadata::{
    be32, encodable, encode_meta_list, lemma_be32_roundtrip, lemma_encode_meta_list_push,
    lemma_parse_encoded_meta_list, meta_views, push_be32, read_be32, BlockMetadata, MetaView,
};
use crate::error::LsmError;
use crate::kv::kv_pair::KeyValuePair;
use crate::kv::timestamped_key::TimestampedKey;
use crate::table::{
    ascending, block_at, block_end, block_entries, block_indexed, block_stored, entries_upto,
    is_empty_table, keys_of, last_key_of, lemma_blocks_kept, lemma_entries_upto_index, open_table,
    sound, table_entries, Sst, SstView,
};
use crate::table::block_cache::BlockCache;
use crate::table::bloom::{
    bit_array_len, bloom_decodable, byte_count, bytes_of_bits, decode_bloom, encode_bloom,
    filter_of, key_bytes, lemma_bit_array_len, lemma_bloom_decode_encode, lemma_bloom_sound,
    lemma_with_keys, lemma_with_keys_empty, max_bits, BloomFilter, BloomView,
};
use crate::table::file::File;
use std::sync::Arc;
use vstd::prelude::*;

verus! {

/// The image of a table file: the data region, the metadata records, the
/// offset of the meta region, the bloom filter, and the offset of the bloom
/// region.
pub open spec fn table_image(data: Seq<u8>, metas: Seq<MetaView>, bloom: BloomView) -> Seq<u8> {
    data + encode_meta_list(metas) + be32(data.len() as u32) + encode_bloom(bloom) + be32(
        (data.len() + encode_meta_list(metas).len() + 4) as u32,
    )
}

/// The block without entries.
pub open spec fn empty_block() -> BlockView {
    BlockView { data: Seq::empty(), offsets: Seq::empty(), end_of_data_offset: 0 }
}

/// The keys of each block of a table ascend, where the keys of the table
/// do.
pub proof fn lemma_block_keys_ascend(v: SstView, i: int)
    requires
        0 <= i < v.metas.len(),
        block_stored(v, i),
        ascending(table_entries(v)),
    ensures
        keys_ascend(block_at(v, i).unwrap()),
{
    let n = v.metas.len() as int;
    let all = table_entries(v);
    let b = block_at(v, i).unwrap();
    lemma_entries_upto_index(v, n, i);
    let base = entries_upto(v, i).len() as int;
    assert forall|x: int, y: int| 0 <= x < y < b.offsets.len() implies crate::lex::lex_lt(
        (#[trigger] entry_at(b, x)).unwrap().0,
        (#[trigger] entry_at(b, y)).unwrap().0,
    ) by {
        assert(block_entries(v, i)[x] == entry_at(b, x).unwrap());
        assert(block_entries(v, i)[y] == entry_at(b, y).unwrap());
        assert(all[base + x] == block_entries(v, i)[x]);
        assert(all[base + y] == block_entries(v, i)[y]);
    }
}

/// The last key of a block is smaller than the first key of the next,
/// where the keys of the table ascend.
pub proof fn lemma_block_keys_chain(v: SstView, i: int)
    requires
        0 <= i < v.metas.len() - 1,
        block_stored(v, i),
        block_stored(v, i + 1),
        block_indexed(v, i),
        block_indexed(v, i + 1),
        ascending(table_entries(v)),
    ensures
        crate::lex::lex_lt(v.metas[i].last_key, v.metas[i + 1].first_key),
{
    let n = v.metas.len() as int;
    let all = table_entries(v);
    let b = block_at(v, i).unwrap();
    let c = block_at(v, i + 1).unwrap();
    lemma_entries_upto_index(v, n, i);
    lemma_entries_upto_index(v, n, i + 1);
    let base = entries_upto(v, i).len() as int;
    let last = b.offsets.len() - 1;
    assert(entry_at(b, last) is Some);
    assert(entry_at(c, 0) is Some);
    crate::block::lemma_entry_at(c, 0);
    assert(block_entries(v, i)[last] == entry_at(b, last).unwrap());
    assert(block_entries(v, i + 1)[0] == entry_at(c, 0).unwrap());
    assert(all[base + last] == block_entries(v, i)[last]);
    assert(entries_upto(v, i + 1).len() == base + b.offsets.len());
    assert(all[base + last + 1] == block_entries(v, i + 1)[0]);
}

/// A table whose blocks are stored and indexed, whose entries ascend, and
/// whose bloom filter was built for its keys, is sound.
#[verifier::rlimit(30)]
pub proof fn lemma_sound(v: SstView)
    requires
        v.metas.len() > 0,
        forall|i: int| 0 <= i < v.metas.len() ==> #[trigger] block_stored(v, i),
        is_empty_table(v) || forall|i: int| 0 <= i < v.metas.len()
            ==> #[trigger] block_indexed(v, i),
        ascending(table_entries(v)),
        v.bloom == filter_of(keys_of(table_entries(v))),
    ensures
        sound(v),
{
    let n = v.metas.len() as int;
    let all = table_entries(v);
    assert forall|i: int| 0 <= i < n implies keys_ascend((#[trigger] block_at(v, i)).unwrap()) by {
        assert(block_stored(v, i));
        lemma_block_keys_ascend(v, i);
    }
    if !is_empty_table(v) {
        assert forall|i: int| 0 <= i < n - 1 implies crate::lex::lex_lt(
            (#[trigger] v.metas[i]).last_key,
            v.metas[i + 1].first_key,
        ) by {
            assert(block_stored(v, i) && block_stored(v, i + 1));
            assert(block_indexed(v, i) && block_indexed(v, i + 1));
            lemma_block_keys_chain(v, i);
        }
    }
    assert forall|j: int| 0 <= j < all.len() implies crate::table::bloom::may_contain(
        v.bloom,
        (#[trigger] all[j]).0,
    ) by {
        lemma_bloom_sound(keys_of(all), j);
    }
    reveal(sound);
}

/// The five parts of an image are found again at their places.
pub proof fn lemma_image_parts(data: Seq<u8>, ml: Seq<u8>, a: u32, be: Seq<u8>, b: u32)
    requires
        a == data.len(),
        b == data.len() + ml.len() + 4,
    ensures
        ({
            let image = data + ml + be32(a) + be + be32(b);
            &&& image.len() == b + be.len() + 4
            &&& image.subrange(0, a as int) == data
            &&& image.subrange(a as int, b - 4) == ml
            &&& read_be32(image, b - 4) == a
            &&& image.subrange(b as int, image.len() - 4) == be
            &&& read_be32(image, image.len() - 4) == b
        }),
{
    let image = data + ml + be32(a) + be + be32(b);
    let len = image.len() as int;
    lemma_be32_roundtrip(a);
    lemma_be32_roundtrip(b);
    assert(image.subrange(0, a as int) =~= data);
    assert(image.subrange(a as int, b - 4) =~= ml);
    assert(image.subrange(b as int, len - 4) =~= be);
    assert(image[b - 4] == be32(a)[0]);
    assert(image[b - 3] == be32(a)[1]);
    assert(image[b - 2] == be32(a)[2]);
    assert(image[b - 1] == be32(a)[3]);
    assert(image[len - 4] == be32(b)[0]);
    assert(image[len - 3] == be32(b)[1]);
    assert(image[len - 2] == be32(b)[2]);
    assert(image[len - 1] == be32(b)[3]);
}

/// The serialized form of the filter built for `keys` can be decoded, and
/// decodes to that filter.
pub proof fn lemma_built_bloom(keys: Seq<Seq<u8>>)
    requires
        bit_array_len(keys.len()) <= max_bits(),
    ensures
        bloom_decodable(encode_bloom(filter_of(keys))),
        decode_bloom(encode_bloom(filter_of(keys))) == filter_of(keys),
{
    let bloom = filter_of(keys);
    let m = bit_array_len(keys.len());
    lemma_bit_array_len(keys.len());
    if m > 0 {
        lemma_with_keys(Seq::new(m, |i: int| false), keys, bloom.k as int);
    } else {
        lemma_with_keys_empty(Seq::new(m, |i: int| false), keys, bloom.k as int);
    }
    assert(bloom.bits.len() == m);
    assert(bytes_of_bits(bloom.bits).len() == byte_count(m as int));
    lemma_bloom_decode_encode(bloom);
}

/// The image of a built table opens as that table: the offsets, the bloom
/// filter and the metadata records read from the end of the image are those
/// that were laid out.
#[verifier::rlimit(30)]
pub proof fn lemma_open_built(id: usize, data: Seq<u8>, metas: Seq<MetaView>, keys: Seq<Seq<u8>>)
    requires
        forall|i: int| 0 <= i < metas.len() ==> encodable(#[trigger] metas[i]),
        data.len() + encode_meta_list(metas).len() + 4 <= u32::MAX,
        bit_array_len(keys.len()) <= max_bits(),
    ensures
        table_image(data, metas, filter_of(keys)).subrange(0, data.len() as int) == data,
        open_table(id, table_image(data, metas, filter_of(keys))) == Some(
            SstView {
                id,
                image: table_image(data, metas, filter_of(keys)),
                metas,
                meta_block_offset: data.len() as u32,
                bloom: filter_of(keys),
            },
        ),
{
    let bloom = filter_of(keys);
    let ml = encode_meta_list(metas);
    let be = encode_bloom(bloom);
    let a = data.len() as u32;
    let b = (data.len() + ml.len() + 4) as u32;
    lemma_image_parts(data, ml, a, be, b);
    lemma_built_bloom(keys);
    lemma_parse_encoded_meta_list(Seq::empty(), metas);
    assert(Seq::<u8>::empty() + ml =~= ml);
}

/// A table of one record at offset zero, over the two bytes that store a
/// block without entries, is an empty table.
pub proof fn lemma_empty_table(v: SstView)
    requires
        v.image == seq![0u8, 0u8],
        v.metas.len() == 1,
        v.metas[0].offset == 0,
        v.meta_block_offset == 2,
    ensures
        block_at(v, 0) == Some(empty_block()),
        block_stored(v, 0),
        is_empty_table(v),
        table_entries(v) == Seq::<RawEntry>::empty(),
{
    lemma_decode_encode(empty_block());
    assert(encode_block(empty_block()) =~= seq![0u8, 0u8]);
    assert(v.image.subrange(0, 2) =~= v.image);
    assert(block_at(v, 0) == Some(empty_block()));
    assert(entries_of(empty_block()) =~= Seq::<RawEntry>::empty());
    assert(entries_upto(v, 0) =~= Seq::<RawEntry>::empty());
    assert(table_entries(v) =~= Seq::<RawEntry>::empty());
}

/// The table laid out from finished blocks keeps the blocks, and is sound
/// where its entries ascend and its bloom filter was built for its keys.
pub proof fn lemma_built_blocks(v1: SstView, v2: SstView)
    requires
        v1.metas.len() > 0,
        v2.metas == v1.metas,
        v2.meta_block_offset == v1.meta_block_offset,
        v1.image.len() <= v2.image.len(),
        v2.image.subrange(0, v1.image.len() as int) == v1.image,
        forall|i: int| 0 <= i < v1.metas.len() ==> #[trigger] block_stored(v1, i),
        is_empty_table(v1) || forall|i: int|
            0 <= i < v1.metas.len() ==> #[trigger] block_indexed(v1, i),
        v2.bloom == filter_of(keys_of(table_entries(v1))),
    ensures
        table_entries(v2) == table_entries(v1),
        forall|i: int| 0 <= i < v2.metas.len() ==> #[trigger] block_stored(v2, i),
        is_empty_table(v2) || forall|i: int|
            0 <= i < v2.metas.len() ==> #[trigger] block_indexed(v2, i),
        ascending(table_entries(v1)) ==> sound(v2),
{
    let n = v1.metas.len() as int;
    assert forall|j: int| 0 <= j < n implies block_end(v2, j) == block_end(v1, j) by {}
    lemma_blocks_kept(v1, v2, n);
    if is_empty_table(v1) {
        assert(block_at(v2, 0) == block_at(v1, 0));
    } else {
        assert forall|i: int| 0 <= i < n implies #[trigger] block_indexed(v2, i) by {
            assert(block_indexed(v1, i));
        }
    }
    if ascending(table_entries(v1)) {
        lemma_sound(v2);
    }
}

/// What a table builder holds: the blocks finished so far, as a table
/// without a bloom filter, the block being filled, and the target size of
/// each block.
pub struct BuilderView {
    pub done: SstView,
    pub current: BlockView,
    pub target: usize,
}

/// The finished blocks after block `current` is finished too: its record
/// joins the index, and its serialized form the data region.
pub open spec fn sealed_table(done: SstView, current: BlockView) -> SstView {
    SstView {
        image: done.image + encode_block(current),
        metas: done.metas.push(
            MetaView {
                offset: done.meta_block_offset,
                first_key: first_key_of(current),
                last_key: last_key_of(current),
            },
        ),
        meta_block_offset: (done.image.len() + encode_block(current).len()) as u32,
        ..done
    }
}

/// The metadata records of the table that is built from the finished
/// blocks and the block being filled: a block that has entries is finished,
/// and a table without entries gets one block without entries.
pub open spec fn final_metas_of(done: SstView, current: BlockView) -> Seq<MetaView> {
    if current.offsets.len() > 0 {
        sealed_table(done, current).metas
    } else if done.metas.len() == 0 {
        seq![MetaView { offset: 0, first_key: Seq::empty(), last_key: Seq::empty() }]
    } else {
        done.metas
    }
}

/// The bytes that building the table adds to the data region of the
/// finished blocks: the serialized form of the block being filled where it
/// has entries, that of a block without entries where the table has none,
/// and nothing else.
pub open spec fn last_region(done: SstView, current: BlockView) -> Seq<u8> {
    if current.offsets.len() > 0 {
        encode_block(current)
    } else if done.metas.len() == 0 {
        encode_block(empty_block())
    } else {
        Seq::empty()
    }
}

/// Whether an entry with the given key and value closes the block being
/// filled and opens the next: that block has entries, and the projected
/// size reaches the target.
pub open spec fn rotates_in(b: BuilderView, key: Seq<u8>, value: Seq<u8>) -> bool {
    b.current.offsets.len() > 0 && clamp_usize(
        projected_size(b.current, key.len() as int, value.len() as int),
    ) >= b.target
}

/// Whether the entry can be added: it fits the block it goes to, and where
/// it closes a block, the data region with that block stays within 32 bits.
pub open spec fn accepts_in(b: BuilderView, key: Seq<u8>, value: Seq<u8>) -> bool {
    if rotates_in(b, key, value) {
        &&& fits(empty_block(), key, value)
        &&& b.done.image.len() + serialized_size(b.current) <= u32::MAX
    } else {
        fits(b.current, key, value)
    }
}

/// The builder after the entry is added.
pub open spec fn added(b: BuilderView, key: Seq<u8>, value: Seq<u8>) -> BuilderView {
    if rotates_in(b, key, value) {
        BuilderView {
            done: sealed_table(b.done, b.current),
            current: appended(empty_block(), key, value),
            target: b.target,
        }
    } else {
        BuilderView { current: appended(b.current, key, value), ..b }
    }
}

/// The builder after the first `n` of the entries are added one after the
/// other; `None` where one of them cannot be added.
pub open spec fn added_all(b: BuilderView, entries: Seq<RawEntry>, n: int) -> Option<BuilderView>
    decreases n,
{
    if n <= 0 {
        Some(b)
    } else {
        match added_all(b, entries, n - 1) {
            None => None,
            Some(before) => if accepts_in(before, entries[n - 1].0, entries[n - 1].1) {
                Some(added(before, entries[n - 1].0, entries[n - 1].1))
            } else {
                None
            },
        }
    }
}

/// Where a builder cannot take the first `n` of the entries, it cannot take
/// more of them.
pub proof fn lemma_added_all_stops(
    b: BuilderView,
    entries: Seq<RawEntry>,
    n: int,
    m: int,
)
    requires
        0 <= n <= m,
        added_all(b, entries, n) is None,
    ensures
        added_all(b, entries, m) is None,
    decreases m - n,
{
    if n < m {
        lemma_added_all_stops(b, entries, n, m - 1);
    }
}

/// Whether the table can be built: the file up to the bloom region stays
/// within 32 bits, and a bit array can hold the bloom filter.
pub open spec fn buildable_in(b: BuilderView) -> bool {
    &&& b.done.image.len() + (if b.current.offsets.len() > 0 || b.done.metas.len() == 0 {
        serialized_size(b.current)
    } else {
        0
    }) + encode_meta_list(final_metas_of(b.done, b.current)).len() + 4 <= u32::MAX
    &&& bit_array_len((table_entries(b.done) + entries_of(b.current)).len()) <= max_bits()
}

/// The table that is built from a builder with the given id: its data
/// region is the finished blocks followed by the last block, its records
/// are those of the blocks, its bloom filter is built for the keys of all
/// entries, and its image is laid out from these.
pub open spec fn built_table(b: BuilderView, id: usize) -> SstView {
    SstView {
        id,
        image: table_image(
            b.done.image + last_region(b.done, b.current),
            final_metas_of(b.done, b.current),
            filter_of(keys_of(table_entries(b.done) + entries_of(b.current))),
        ),
        metas: final_metas_of(b.done, b.current),
        meta_block_offset: (b.done.image + last_region(b.done, b.current)).len() as u32,
        bloom: filter_of(keys_of(table_entries(b.done) + entries_of(b.current))),
    }
}

/// A builder without entries.
pub open spec fn new_builder(target: usize) -> BuilderView {
    BuilderView {
        done: SstView {
            id: 0,
            image: Seq::empty(),
            metas: Seq::empty(),
            meta_block_offset: 0,
            bloom: BloomView { bits: Seq::empty(), k: 0 },
        },
        current: empty_block(),
        target,
    }
}

/// Accumulates entries, in ascending key order, into the blocks and the
/// index of a sorted table.
pub struct SSTBuilder {
    block_builder: BlockBuilder,
    block_meta_list: Vec<BlockMetadata>,
    block_size: usize,
    block_data: Vec<u8>,
    meta_block_offset: u32,
    first_key: TimestampedKey,
    last_key: TimestampedKey,
    all_keys: Vec<TimestampedKey>,
}

impl SSTBuilder {
    /// The blocks finished so far, as a table without a bloom filter.
    pub closed spec fn done(&self) -> SstView {
        SstView {
            id: 0,
            image: self.block_data@,
            metas: meta_views(self.block_meta_list@),
            meta_block_offset: self.meta_block_offset,
            bloom: BloomView { bits: Seq::empty(), k: 0 },
        }
    }

    /// The block being filled.
    pub closed spec fn current(&self) -> BlockView {
        self.block_builder@
    }

    /// The target size of each block in bytes.
    pub closed spec fn target(&self) -> usize {
        self.block_size
    }

    /// What the builder holds.
    pub open spec fn state(&self) -> BuilderView {
        BuilderView { done: self.done(), current: self.current(), target: self.target() }
    }

    /// The entries added so far, in order.
    pub open spec fn entries(&self) -> Seq<RawEntry> {
        table_entries(self.done()) + entries_of(self.current())
    }

    /// Whether an entry with the given key and value closes the block being
    /// filled and opens the next.
    pub open spec fn rotates(&self, key: Seq<u8>, value: Seq<u8>) -> bool {
        rotates_in(self.state(), key, value)
    }

    /// Whether the entry can be added.
    pub open spec fn accepts(&self, key: Seq<u8>, value: Seq<u8>) -> bool {
        accepts_in(self.state(), key, value)
    }

    /// The builder's invariant: the finished blocks are stored whole in the
    /// data region, each has entries and is named by its record, the block
    /// being filled is well formed, and the builder remembers the first and
    /// last key of that block and the keys of all entries.
    pub closed spec fn wf(&self) -> bool {
        &&& self.block_builder.wf()
        &&& self.block_builder.target() == self.block_size
        &&& self.meta_block_offset == self.block_data@.len()
        &&& (self.block_meta_list@.len() == 0 ==> self.block_data@.len() == 0)
        &&& (self.block_meta_list@.len() > 0 ==> meta_views(self.block_meta_list@)[0].offset == 0)
        &&& forall|i: int|
            0 <= i < self.block_meta_list@.len() ==> #[trigger] block_stored(self.done(), i)
        &&& forall|i: int|
            0 <= i < self.block_meta_list@.len() ==> #[trigger] block_indexed(self.done(), i)
        &&& forall|i: int|
            0 <= i < self.block_meta_list@.len() ==> encodable(
                #[trigger] meta_views(self.block_meta_list@)[i],
            )
        &&& key_bytes(self.all_keys@) == keys_of(self.entries())
        &&& self.current().offsets.len() > 0 ==> {
            &&& self.first_key.bytes() == first_key_of(self.current())
            &&& self.last_key.bytes() == last_key_of(self.current())
            &&& self.first_key.bytes().len() <= MAX_U16
            &&& self.last_key.bytes().len() <= MAX_U16
        }
    }

    /// A builder without entries, whose blocks aim at `block_size` bytes.
    pub fn new(block_size: usize) -> (b: Self)
        ensures
            b.wf(),
            b.target() == block_size,
            b.entries() == Seq::<RawEntry>::empty(),
            b.state() == new_builder(block_size),
    {
        let b = Self {
            block_builder: BlockBuilder::new(block_size),
            block_meta_list: Vec::new(),
            block_size,
            block_data: Vec::new(),
            meta_block_offset: 0,
            first_key: TimestampedKey::new(Vec::new()),
            last_key: TimestampedKey::new(Vec::new()),
            all_keys: Vec::new(),
        };
        proof {
            assert(b.done().image =~= Seq::<u8>::empty());
            assert(b.done().metas =~= Seq::<MetaView>::empty());
            assert(entries_upto(b.done(), 0) =~= Seq::<RawEntry>::empty());
            assert(entries_of(b.current()) =~= Seq::<RawEntry>::empty());
            assert(b.entries() =~= Seq::<RawEntry>::empty());
            assert(key_bytes(b.all_keys@) =~= keys_of(b.entries()));
        }
        b
    }

    /// Adds `kv` as the next entry. Where the block being filled has entries
    /// and the projected size reaches the target, that block is finished
    /// first and the entry opens the next. An entry that cannot be recorded
    /// is refused with `SizeOverflow` and leaves the builder as it was.
    pub fn add(&mut self, kv: KeyValuePair) -> (r: Result<(), LsmError>)
        requires
            old(self).wf(),
        ensures
            final(self).wf(),
            final(self).target() == old(self).target(),
            r is Ok <==> old(self).accepts(kv@.key, kv@.value),
            r is Err ==> r == Err::<(), LsmError>(LsmError::SizeOverflow),
            r is Ok ==> final(self).state() == added(old(self).state(), kv@.key, kv@.value),
            r is Ok ==> final(self).entries() == old(self).entries().push((kv@.key, kv@.value)),
            r is Err ==> final(self).entries() == old(self).entries()
                && final(self).done() == old(self).done()
                && final(self).current() == old(self).current(),
            r is Ok && old(self).rotates(kv@.key, kv@.value) ==> final(self).done().metas.len()
                == old(self).done().metas.len() + 1,
            r is Ok && !old(self).rotates(kv@.key, kv@.value)
                ==> final(self).done() == old(self).done(),
    {
        let klen = kv.key.key_ref().len();
        let vlen = kv.value.len();
        proof {
            self.block_builder.lemma_wf();
        }
        let rotate = !self.block_builder.is_empty() && self.block_builder.get_block_size_with_kv(
            &kv,
        ) >= self.block_size;
        if rotate {
            if klen > MAX_U16 || vlen > MAX_U16 || 4 + klen + vlen > MAX_U16 {
                return Err(LsmError::SizeOverflow);
            }
            let size = self.block_builder.get_block_size();
            if size > u32::MAX as usize || self.block_data.len() > u32::MAX as usize - size {
                return Err(LsmError::SizeOverflow);
            }
            self.seal_current();
        }
        let ghost before = *self;
        let ghost cur = self.block_builder@;
        let was_empty = self.block_builder.is_empty();
        let key = kv.key.clone();
        let ghost k = kv@.key;
        let ghost v = kv@.value;
        match self.block_builder.add(kv) {
            Err(_) => {
                assert(!rotate);
                Err(LsmError::SizeOverflow)
            },
            Ok(()) => {
                proof {
                    self.block_builder.lemma_wf();
                    before.block_builder.lemma_wf();
                    lemma_appended(cur, k, v);
                    assert(entries_of(self.block_builder@).last() == (k, v));
                    let n = self.block_builder@.offsets.len() as int;
                    assert(entry_at(self.block_builder@, n - 1) is Some);
                    assert(entries_of(self.block_builder@)[n - 1] == entry_at(
                        self.block_builder@,
                        n - 1,
                    ).unwrap());
                }
                if was_empty {
                    self.first_key = key.clone();
                }
                self.last_key = key.clone();
                self.all_keys.push(key);
                proof {
                    assert(self.done() == before.done());
                    assert(self.entries() =~= before.entries().push((k, v)));
                    assert(key_bytes(self.all_keys@) =~= key_bytes(before.all_keys@).push(k));
                    assert(keys_of(self.entries()) =~= keys_of(before.entries()).push(k));
                }
                Ok(())
            },
        }
    }

    /// Finishes the block being filled: its record joins the index, its
    /// serialized form joins the data region, and an empty block is opened.
    #[verifier::rlimit(30)]
    fn seal_current(&mut self)
        requires
            old(self).wf(),
            old(self).current().offsets.len() > 0,
            old(self).done().image.len() + serialized_size(old(self).current()) <= u32::MAX,
        ensures
            final(self).wf(),
            final(self).target() == old(self).target(),
            final(self).entries() == old(self).entries(),
            final(self).current() == empty_block(),
            final(self).done().metas.len() == old(self).done().metas.len() + 1,
            final(self).done().metas == old(self).final_metas(),
            final(self).done() == sealed_table(old(self).done(), old(self).current()),
            final(self).done().image.len() == old(self).done().image.len() + serialized_size(
                old(self).current(),
            ),
    {
        let ghost v1 = self.done();
        let ghost cur = self.current();
        let ghost n = self.block_meta_list@.len() as int;
        let ghost old_entries = self.entries();
        proof {
            self.block_builder.lemma_wf();
        }
        let block_meta = BlockMetadata::new(
            self.meta_block_offset,
            self.first_key.get_key(),
            self.last_key.get_key(),
        );
        let ghost m = block_meta@;
        self.block_meta_list.push(block_meta);
        let mut fresh = BlockBuilder::new(self.block_size);
        std::mem::swap(&mut self.block_builder, &mut fresh);
        let block = fresh.build();
        let encoded = block.encode();
        extend_bytes(&mut self.block_data, encoded.as_slice());
        self.meta_block_offset = self.block_data.len() as u32;
        proof {
            let v2 = self.done();
            let enc = encode_block(cur);
            assert(enc.len() == serialized_size(cur)) by {
                assert(crate::block::be16_list(cur.offsets).len() == 2 * cur.offsets.len());
            }
            assert(v2.image == v1.image + enc);
            assert(v2.metas =~= v1.metas.push(m));
            assert(v2.image.subrange(0, v1.image.len() as int) =~= v1.image);
            assert forall|i: int| 0 <= i < n implies block_end(v2, i) == block_end(v1, i) by {}
            lemma_blocks_kept(v1, v2, n);
            lemma_decode_encode(cur);
            assert(v2.image.subrange(v1.image.len() as int, v2.image.len() as int) =~= enc);
            assert(block_at(v2, n) == Some(cur));
            assert(block_stored(v2, n));
            assert(block_indexed(v2, n));
            assert forall|i: int| 0 <= i < n + 1 implies #[trigger] block_stored(v2, i) by {}
            assert forall|i: int| 0 <= i < n + 1 implies #[trigger] block_indexed(v2, i) by {
                if i < n {
                    assert(block_indexed(v1, i));
                }
            }
            assert forall|i: int| 0 <= i < n + 1 implies encodable(
                #[trigger] meta_views(self.block_meta_list@)[i],
            ) by {
                if i < n {
                    assert(meta_views(self.block_meta_list@)[i] == meta_views(
                        old(self).block_meta_list@,
                    )[i]);
                }
            }
            assert(entries_of(empty_block()) =~= Seq::<RawEntry>::empty());
            assert(table_entries(v2) == entries_upto(v1, n) + entries_of(cur));
            assert(self.entries() =~= old_entries);
        }
    }

    /// Finishes the block being filled where it has entries; a block without
    /// entries stays open.
    pub fn finalize_block(&mut self)
        requires
            old(self).wf(),
            old(self).done().image.len() + serialized_size(old(self).current()) <= u32::MAX,
        ensures
            final(self).wf(),
            final(self).target() == old(self).target(),
            final(self).entries() == old(self).entries(),
            final(self).current() == empty_block(),
            final(self).done().metas.len() == old(self).done().metas.len()
                + (if old(self).current().offsets.len() > 0 {
                1int
            } else {
                0int
            }),
    {
        proof {
            self.block_builder.lemma_wf();
        }
        if !self.block_builder.is_empty() {
            self.seal_current();
        } else {
            assert(self.current() =~= empty_block()) by {
                assert(self.current().data =~= Seq::<u8>::empty());
                assert(self.current().offsets =~= Seq::<u16>::empty());
            }
        }
    }

    /// Whether `build` finishes a block: the block being filled has entries,
    /// or no block is finished yet.
    pub open spec fn seals(&self) -> bool {
        self.current().offsets.len() > 0 || self.done().metas.len() == 0
    }

    /// The metadata records of the table that `build` gives.
    pub open spec fn final_metas(&self) -> Seq<MetaView> {
        final_metas_of(self.done(), self.current())
    }

    /// Whether the table can be built.
    pub open spec fn buildable(&self) -> bool {
        buildable_in(self.state())
    }

    /// The state in which the table can be laid out: at least one block is
    /// finished, none is being filled, every finished block is stored whole
    /// in the data region, and every block, but that of a table without
    /// entries, has entries and is named by its record.
    pub closed spec fn sealed(&self) -> bool {
        &&& self.block_meta_list@.len() > 0
        &&& self.current().offsets.len() == 0
        &&& self.meta_block_offset == self.block_data@.len()
        &&& meta_views(self.block_meta_list@)[0].offset == 0
        &&& forall|i: int|
            0 <= i < self.block_meta_list@.len() ==> #[trigger] block_stored(self.done(), i)
        &&& (is_empty_table(self.done()) || forall|i: int|
            0 <= i < self.block_meta_list@.len() ==> #[trigger] block_indexed(self.done(), i))
        &&& forall|i: int|
            0 <= i < self.block_meta_list@.len() ==> encodable(
                #[trigger] meta_views(self.block_meta_list@)[i],
            )
        &&& key_bytes(self.all_keys@) == keys_of(table_entries(self.done()))
    }

    /// Finishes the last block, or for a table without entries stores one
    /// block without entries.
    #[verifier::rlimit(30)]
    fn seal_last(&mut self) -> (r: Result<(), LsmError>)
        requires
            old(self).wf(),
        ensures
            r is Ok <==> old(self).done().image.len() + (if old(self).seals() {
                serialized_size(old(self).current())
            } else {
                0
            }) <= u32::MAX,
            r is Err ==> r->Err_0 == LsmError::SizeOverflow,
            r is Ok ==> {
                &&& final(self).sealed()
                &&& final(self).done().metas == old(self).final_metas()
                &&& table_entries(final(self).done()) == old(self).entries()
                &&& final(self).done().image == old(self).done().image + last_region(
                    old(self).done(),
                    old(self).current(),
                )
                &&& final(self).done().image.len() == old(self).done().image.len()
                    + (if old(self).seals() {
                    serialized_size(old(self).current())
                } else {
                    0
                })
            },
    {
        proof {
            self.block_builder.lemma_wf();
        }
        if self.block_meta_list.len() == 0 && self.block_builder.is_empty() {
            self.block_meta_list.push(BlockMetadata::new(0, Vec::new(), Vec::new()));
            self.block_data.push(0);
            self.block_data.push(0);
            self.meta_block_offset = 2;
            proof {
                let v = self.done();
                assert(self.current() =~= empty_block()) by {
                    assert(self.current().data =~= Seq::<u8>::empty());
                    assert(self.current().offsets =~= Seq::<u16>::empty());
                }
                assert(v.image =~= seq![0u8, 0u8]);
                assert(v.metas =~= old(self).final_metas());
                lemma_empty_table(v);
                assert(entries_upto(old(self).done(), 0) =~= Seq::<RawEntry>::empty());
                assert(old(self).entries() =~= Seq::<RawEntry>::empty());
                assert(key_bytes(self.all_keys@) =~= keys_of(table_entries(v)));
            }
            Ok(())
        } else if !self.block_builder.is_empty() {
            let size = self.block_builder.get_block_size();
            if size > u32::MAX as usize || self.block_data.len() > u32::MAX as usize - size {
                return Err(LsmError::SizeOverflow);
            }
            self.seal_current();
            proof {
                assert(entries_of(self.current()) =~= Seq::<RawEntry>::empty());
                assert(self.entries() =~= table_entries(self.done()));
            }
            Ok(())
        } else {
            proof {
                assert(entries_of(self.current()) =~= Seq::<RawEntry>::empty());
                assert(self.entries() =~= table_entries(self.done()));
            }
            Ok(())
        }
    }

    /// Finishes the last block and lays out the table: data region,
    /// metadata records, meta offset, bloom filter over all keys, bloom
    /// offset. A table without entries has one block without entries. Gives
    /// the table over the image of its file; the image is what a caller
    /// writes to disk.
    pub fn build(self, id: usize, block_cache: Option<Arc<BlockCache>>) -> (r: Result<
        Sst,
        LsmError,
    >)
        requires
            self.wf(),
        ensures
            r is Ok <==> self.buildable(),
            r is Err ==> r->Err_0 == LsmError::SizeOverflow,
            r matches Ok(sst) ==> {
                &&& sst@ == built_table(self.state(), id)
                &&& sst@.id == id
                &&& sst.cached() == (block_cache is Some)
                &&& sst@.metas == self.final_metas()
                &&& sst@.bloom == filter_of(keys_of(self.entries()))
                &&& sst@.metas[0].offset == 0
                &&& sst@.meta_block_offset <= sst@.image.len()
                &&& sst@.image.subrange(0, sst@.meta_block_offset as int) == self.done().image
                    + last_region(self.done(), self.current())
                &&& sst@.image == table_image(
                    sst@.image.subrange(0, sst@.meta_block_offset as int),
                    sst@.metas,
                    sst@.bloom,
                )
                &&& open_table(id, sst@.image) == Some(sst@)
                &&& table_entries(sst@) == self.entries()
                &&& sst@.metas.len() > 0
                &&& forall|i: int| 0 <= i < sst@.metas.len() ==> #[trigger] block_stored(sst@, i)
                &&& (is_empty_table(sst@) || forall|i: int|
                    0 <= i < sst@.metas.len() ==> #[trigger] block_indexed(sst@, i))
                &&& ascending(self.entries()) ==> sound(sst@)
            },
    {
        let mut this = self;
        match this.seal_last() {
            Err(e) => Err(e),
            Ok(()) => this.lay_out(id, block_cache),
        }
    }

    /// Lays out the table of a sealed builder.
    #[verifier::rlimit(30)]
    fn lay_out(self, id: usize, block_cache: Option<Arc<BlockCache>>) -> (r: Result<Sst, LsmError>)
        requires
            self.sealed(),
        ensures
            r is Ok <==> {
                &&& self.done().image.len() + encode_meta_list(self.done().metas).len() + 4
                    <= u32::MAX
                &&& bit_array_len(table_entries(self.done()).len()) <= max_bits()
            },
            r is Err ==> r->Err_0 == LsmError::SizeOverflow,
            r matches Ok(sst) ==> {
                &&& sst@.id == id
                &&& sst.cached() == (block_cache is Some)
                &&& sst@.metas == self.done().metas
                &&& sst@.bloom == filter_of(keys_of(table_entries(self.done())))
                &&& sst@.metas[0].offset == 0
                &&& sst@.meta_block_offset <= sst@.image.len()
                &&& sst@.image.subrange(0, sst@.meta_block_offset as int) == self.done().image
                &&& sst@.image == table_image(
                    sst@.image.subrange(0, sst@.meta_block_offset as int),
                    sst@.metas,
                    sst@.bloom,
                )
                &&& open_table(id, sst@.image) == Some(sst@)
                &&& table_entries(sst@) == table_entries(self.done())
                &&& sst@.metas.len() > 0
                &&& forall|i: int| 0 <= i < sst@.metas.len() ==> #[trigger] block_stored(sst@, i)
                &&& (is_empty_table(sst@) || forall|i: int|
                    0 <= i < sst@.metas.len() ==> #[trigger] block_indexed(sst@, i))
                &&& ascending(table_entries(self.done())) ==> sound(sst@)
            },
    {
        let ghost v1 = self.done();
        let ghost entries = table_entries(v1);
        let SSTBuilder {
            block_builder: _,
            block_meta_list,
            block_size: _,
            block_data,
            meta_block_offset,
            first_key: _,
            last_key: _,
            all_keys,
        } = self;
        let ghost data = block_data@;
        let ghost metas = meta_views(block_meta_list@);
        let ghost n = metas.len() as int;
        let mut buffer: Vec<u8> = block_data;
        let mut i: usize = 0;
        assert(encode_meta_list(metas.subrange(0, 0)) =~= Seq::<u8>::empty());
        while i < block_meta_list.len()
            invariant
                i <= block_meta_list@.len(),
                metas == meta_views(block_meta_list@),
                forall|j: int| 0 <= j < metas.len() ==> encodable(#[trigger] metas[j]),
                buffer@ == data + encode_meta_list(metas.subrange(0, i as int)),
            decreases block_meta_list@.len() - i,
        {
            assert(encodable(metas[i as int]));
            let encoded = block_meta_list[i].encode();
            extend_bytes(&mut buffer, encoded.as_slice());
            proof {
                lemma_encode_meta_list_push(metas.subrange(0, i as int), metas[i as int]);
                assert(metas.subrange(0, i as int).push(metas[i as int]) =~= metas.subrange(
                    0,
                    i + 1,
                ));
                assert(buffer@ =~= data + encode_meta_list(metas.subrange(0, i + 1)));
            }
            i += 1;
        }
        assert(metas.subrange(0, n) =~= metas);
        if buffer.len() > u32::MAX as usize - 4 {
            return Err(LsmError::SizeOverflow);
        }
        push_be32(&mut buffer, meta_block_offset);
        let ghost keys = key_bytes(all_keys@);
        assert(keys.len() == entries.len());
        let bloom_filter = match BloomFilter::try_from_keys(all_keys) {
            Some(f) => f,
            None => {
                return Err(LsmError::SizeOverflow);
            },
        };
        let encoded_bloom = bloom_filter.encode();
        let bloom_filter_offset = buffer.len() as u32;
        extend_bytes(&mut buffer, encoded_bloom.as_slice());
        push_be32(&mut buffer, bloom_filter_offset);
        let ghost image = buffer@;
        let file = File::create(buffer);
        let sst = Sst::new(id, file, block_meta_list, meta_block_offset, block_cache, bloom_filter);
        proof {
            assert(image == table_image(data, metas, filter_of(keys)));
            lemma_open_built(id, data, metas, keys);
            lemma_built_blocks(v1, sst@);
        }
        Ok(sst)
    }

    /// The number of bytes of the data region so far.
    pub fn get_estimated_size(&self) -> (r: usize)
        ensures
            r == self.done().image.len(),
    {
        self.block_data.len()
    }

    /// The number of blocks finished so far.
    pub fn num_finished_blocks(&self) -> (r: usize)
        ensures
            r == self.done().metas.len(),
    {
        self.block_meta_list.len()
    }
}

} // verus!
