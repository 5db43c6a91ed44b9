//! The sorted table: blocks of entries, an index of the blocks, and a bloom
//! filter over the keys.

pub mod block_cache;
pub mod bloom;
pub mod builder;
pub mod file;
pub mod iterator;
pub mod lookup;

use crate::block::{
    encode_block, entries_of, entry_at, first_key_of, lemma_decode_encode, Block, BlockView,
    RawEntry,
};
use crate::block::builder::well_formed;
use crate::block::iterator::keys_ascend;
use crate::block::metadata::{meta_views, BlockMetadata, MetaView};
use crate::error::LsmError;
use crate::kv::timestamped_key::TimestampedKey;
use crate::lex::{
    compare, copy_bytes, lemma_lex_lt_transitive, lemma_lex_trichotomy, lex_le, lex_lt, Rank,
};
use crate::table::block_cache::BlockCache;
use crate::table::bloom::{may_contain, BloomFilter, BloomView};
use crate::table::file::{
    block_of, bloom_of, bloom_offset_of, meta_offset_of, metas_of, region, File,
};
use std::sync::Arc;
use vstd::prelude::*;

verus! {

/// What a sorted table holds: its id, the image of its file, the metadata
/// records of its blocks, the offset of the meta region, and its bloom
/// filter.
pub struct SstView {
    pub id: usize,
    pub image: Seq<u8>,
    pub metas: Seq<MetaView>,
    pub meta_block_offset: u32,
    pub bloom: BloomView,
}

/// Where block `i` ends: where the next block starts, or for the last block
/// where the meta region starts.
pub open spec fn block_end(v: SstView, i: int) -> u32 {
    if i + 1 < v.metas.len() {
        v.metas[i + 1].offset
    } else {
        v.meta_block_offset
    }
}

/// Block `i` of the table, read from the image; `None` where its range is
/// not within the image or its bytes cannot be decoded.
pub open spec fn block_at(v: SstView, i: int) -> Option<BlockView> {
    if 0 <= i < v.metas.len() && v.metas[i].offset <= block_end(v, i) {
        block_of(v.image, v.metas[i].offset, (block_end(v, i) - v.metas[i].offset) as u32)
    } else {
        None
    }
}

/// Whether block `b` stands in the image as block `i` of the table: the
/// block's end-of-data value is the length of its entry region, and its
/// serialized form is what the image holds from where the record of block
/// `i` says up to where block `i` ends.
pub open spec fn stands_in_image(v: SstView, b: BlockView, i: int) -> bool {
    &&& v.metas[i].offset <= block_end(v, i)
    &&& b.end_of_data_offset == b.data.len()
    &&& region(v.image, v.metas[i].offset as int, block_end(v, i) as int) == Some(
        encode_block(b),
    )
}

/// The table that the image of a file spells: bloom offset, bloom filter,
/// meta offset and metadata records, read from the end of the image.
pub open spec fn open_table(id: usize, image: Seq<u8>) -> Option<SstView> {
    match bloom_offset_of(image) {
        None => None,
        Some(bloom_filter_offset) => match bloom_of(image, bloom_filter_offset) {
            None => None,
            Some(bloom) => match meta_offset_of(image, bloom_filter_offset) {
                None => None,
                Some(meta_block_offset) => match metas_of(
                    image,
                    meta_block_offset,
                    bloom_filter_offset,
                ) {
                    None => None,
                    Some(metas) => Some(SstView { id, image, metas, meta_block_offset, bloom }),
                },
            },
        },
    }
}

/// The first keys of the records ascend strictly.
pub open spec fn first_keys_ascend(metas: Seq<MetaView>) -> bool {
    forall|i: int, j: int|
        0 <= i < j < metas.len() ==> lex_lt(
            (#[trigger] metas[i]).first_key,
            (#[trigger] metas[j]).first_key,
        )
}

/// `at` is the block in which a search for `key` starts: every later block
/// begins with a larger key, and the block itself begins with a key that is
/// no larger, unless it is the first.
pub open spec fn starts_at(metas: Seq<MetaView>, key: Seq<u8>, at: int) -> bool {
    &&& 0 <= at < metas.len()
    &&& forall|i: int| at < i < metas.len() ==> lex_lt(key, (#[trigger] metas[i]).first_key)
    &&& (at == 0 || lex_le(metas[at].first_key, key))
}

/// Whether the table may hold `key`: its bloom filter may, and the key lies
/// between the first key of the first block and the last key of the last.
pub open spec fn may_hold(v: SstView, key: Seq<u8>) -> bool {
    &&& may_contain(v.bloom, key)
    &&& lex_le(v.metas[0].first_key, key)
    &&& lex_le(key, v.metas.last().last_key)
}

/// The key of the last entry of a block that has entries.
pub open spec fn last_key_of(b: BlockView) -> Seq<u8> {
    entry_at(b, b.offsets.len() - 1).unwrap().0
}

/// The entries of block `i` of the table.
pub open spec fn block_entries(v: SstView, i: int) -> Seq<RawEntry> {
    entries_of(block_at(v, i).unwrap())
}

/// The entries of the first `n` blocks of the table, in order.
pub open spec fn entries_upto(v: SstView, n: int) -> Seq<RawEntry>
    decreases n,
{
    if n <= 0 {
        Seq::empty()
    } else {
        entries_upto(v, n - 1) + block_entries(v, n - 1)
    }
}

/// The entries of the table, in the order of its blocks.
pub open spec fn table_entries(v: SstView) -> Seq<RawEntry> {
    entries_upto(v, v.metas.len() as int)
}

/// The bytes of block `i` in the image are the serialized form of a
/// well-formed block.
pub open spec fn block_stored(v: SstView, i: int) -> bool {
    &&& 0 <= i < v.metas.len()
    &&& v.metas[i].offset <= block_end(v, i) <= v.image.len()
    &&& block_at(v, i) is Some
    &&& well_formed(block_at(v, i).unwrap())
    &&& v.image.subrange(v.metas[i].offset as int, block_end(v, i) as int) == encode_block(
        block_at(v, i).unwrap(),
    )
}

/// Block `i` has entries, and its record names the keys of its first and
/// last entry.
pub open spec fn block_indexed(v: SstView, i: int) -> bool {
    &&& block_at(v, i).unwrap().offsets.len() > 0
    &&& v.metas[i].first_key == first_key_of(block_at(v, i).unwrap())
    &&& v.metas[i].last_key == last_key_of(block_at(v, i).unwrap())
}

/// The table has one block, which has no entry.
pub open spec fn is_empty_table(v: SstView) -> bool {
    v.metas.len() == 1 && block_at(v, 0) is Some && block_at(v, 0).unwrap().offsets.len() == 0
}

/// The keys of a list of entries ascend strictly.
pub open spec fn ascending(entries: Seq<RawEntry>) -> bool {
    forall|i: int, j: int|
        0 <= i < j < entries.len() ==> lex_lt((#[trigger] entries[i]).0, (#[trigger] entries[j]).0)
}

/// A table as its builder leaves it when it is given ascending keys: every
/// block is stored whole in the image, every block but that of an empty
/// table has entries and is named by its record, the keys ascend within
/// each block and from each block to the next, and the bloom filter may
/// hold every key of the table.
#[verifier::opaque]
pub open spec fn sound(v: SstView) -> bool {
    &&& v.metas.len() > 0
    &&& forall|i: int| 0 <= i < v.metas.len() ==> #[trigger] block_stored(v, i)
    &&& forall|i: int|
        0 <= i < v.metas.len() ==> keys_ascend((#[trigger] block_at(v, i)).unwrap())
    &&& (is_empty_table(v) || forall|i: int| 0 <= i < v.metas.len()
        ==> #[trigger] block_indexed(v, i))
    &&& forall|i: int|
        0 <= i < v.metas.len() - 1 ==> lex_lt(
            (#[trigger] v.metas[i]).last_key,
            v.metas[i + 1].first_key,
        )
    &&& forall|j: int|
        0 <= j < table_entries(v).len() ==> may_contain(v.bloom, (#[trigger] table_entries(v)[j]).0)
}

/// A sound table has a block.
pub proof fn lemma_sound_nonempty(v: SstView)
    requires
        sound(v),
    ensures
        v.metas.len() > 0,
{
    reveal(sound);
}

/// What soundness says of one block of the table.
pub proof fn lemma_sound_block(v: SstView, i: int)
    requires
        sound(v),
        0 <= i < v.metas.len(),
    ensures
        block_stored(v, i),
        keys_ascend(block_at(v, i).unwrap()),
        is_empty_table(v) || block_indexed(v, i),
        i + 1 < v.metas.len() ==> lex_lt(v.metas[i].last_key, v.metas[i + 1].first_key),
{
    reveal(sound);
}

/// What soundness says of one entry of the table: the bloom filter may
/// hold its key.
pub proof fn lemma_sound_bloom(v: SstView, j: int)
    requires
        sound(v),
        0 <= j < table_entries(v).len(),
    ensures
        may_contain(v.bloom, table_entries(v)[j].0),
{
    reveal(sound);
}

/// The keys of a list of entries.
pub open spec fn keys_of(entries: Seq<RawEntry>) -> Seq<Seq<u8>> {
    Seq::new(entries.len(), |i: int| entries[i].0)
}

/// The first `n` blocks of a table stay what they are when its image grows
/// at the end and records are added after them, as long as each of them
/// still ends where it did.
pub proof fn lemma_blocks_kept(v1: SstView, v2: SstView, n: int)
    requires
        0 <= n <= v1.metas.len(),
        n <= v2.metas.len(),
        v1.image.len() <= v2.image.len(),
        v2.image.subrange(0, v1.image.len() as int) == v1.image,
        forall|i: int| 0 <= i < n ==> v2.metas[i] == v1.metas[i],
        forall|i: int| 0 <= i < n ==> block_end(v2, i) == block_end(v1, i),
        forall|i: int| 0 <= i < n ==> #[trigger] block_stored(v1, i),
    ensures
        forall|i: int| 0 <= i < n ==> #[trigger] block_at(v2, i) == block_at(v1, i),
        forall|i: int| 0 <= i < n ==> #[trigger] block_stored(v2, i),
        forall|i: int| 0 <= i < n && block_indexed(v1, i) ==> #[trigger] block_indexed(v2, i),
        entries_upto(v2, n) == entries_upto(v1, n),
    decreases n,
{
    if n > 0 {
        lemma_blocks_kept(v1, v2, n - 1);
        let i = n - 1;
        assert(block_stored(v1, i));
        let start = v1.metas[i].offset as int;
        let end = block_end(v1, i) as int;
        assert(v2.image.subrange(start, end) =~= v1.image.subrange(start, end));
        assert(block_at(v2, i) == block_at(v1, i));
        assert(block_stored(v2, i));
    }
}

/// Where the entries of one block stand among the entries of the first `n`
/// blocks.
pub proof fn lemma_entries_upto_index(v: SstView, n: int, i: int)
    requires
        0 <= i < n,
    ensures
        entries_upto(v, i).len() + block_entries(v, i).len() <= entries_upto(v, n).len(),
        forall|j: int|
            0 <= j < block_entries(v, i).len() ==> entries_upto(v, n)[entries_upto(v, i).len() + j]
                == #[trigger] block_entries(v, i)[j],
    decreases n,
{
    if i < n - 1 {
        lemma_entries_upto_index(v, n - 1, i);
    }
}

/// The entries of the first blocks are the first of the entries of more
/// blocks.
pub proof fn lemma_entries_upto_prefix(v: SstView, i: int, n: int)
    requires
        0 <= i <= n,
    ensures
        entries_upto(v, i).len() <= entries_upto(v, n).len(),
        entries_upto(v, n).subrange(0, entries_upto(v, i).len() as int) == entries_upto(v, i),
    decreases n,
{
    if i < n {
        lemma_entries_upto_prefix(v, i, n - 1);
        assert(entries_upto(v, n).subrange(0, entries_upto(v, i).len() as int) =~= entries_upto(
            v,
            n - 1,
        ).subrange(0, entries_upto(v, i).len() as int));
    } else {
        assert(entries_upto(v, n).subrange(0, entries_upto(v, i).len() as int) =~= entries_upto(
            v,
            i,
        ));
    }
}

/// One immutable sorted table.
pub struct Sst {
    id: usize,
    file: File,
    meta_blocks: Vec<BlockMetadata>,
    meta_block_offset: u32,
    block_cache: Option<Arc<BlockCache>>,
    bloom_filter: BloomFilter,
}

impl View for Sst {
    type V = SstView;

    closed spec fn view(&self) -> SstView {
        SstView {
            id: self.id,
            image: self.file@,
            metas: meta_views(self.meta_blocks@),
            meta_block_offset: self.meta_block_offset,
            bloom: self.bloom_filter@,
        }
    }
}

/// `Cache::try_get_with` of `moka`: the block that the cache holds under the
/// table's id and the block index, or else the block that `read_block`
/// gives, which the cache then keeps. The cache is shared, so the block may
/// be any that was stored under the key: nothing is claimed of the result.
#[verifier::external_body]
fn cache_try_get_with(cache: &BlockCache, sst: &Sst, block_index: usize) -> (r: Result<
    Arc<Block>,
    LsmError,
>)
    requires
        block_index < sst@.metas.len(),
{
    cache.try_get_with((sst.id, block_index), || sst.read_block(block_index)).map_err(|e| *e)
}

impl Sst {
    /// Whether the table was given a block cache.
    pub closed spec fn cached(&self) -> bool {
        self.block_cache is Some
    }

    /// A table of the given parts.
    pub fn new(
        id: usize,
        file: File,
        meta_blocks: Vec<BlockMetadata>,
        meta_block_offset: u32,
        block_cache: Option<Arc<BlockCache>>,
        bloom_filter: BloomFilter,
    ) -> (sst: Self)
        ensures
            sst@ == (SstView {
                id,
                image: file@,
                metas: meta_views(meta_blocks@),
                meta_block_offset,
                bloom: bloom_filter@,
            }),
            sst.cached() == (block_cache is Some),
    {
        Self { id, file, meta_blocks, meta_block_offset, block_cache, bloom_filter }
    }

    /// The table that the image in `file` spells.
    pub fn open(id: usize, file: File, block_cache: Option<Arc<BlockCache>>) -> (r: Result<
        Self,
        LsmError,
    >)
        ensures
            match r {
                Ok(sst) => open_table(id, file@) == Some(sst@) && sst.cached() == (block_cache
                    is Some),
                Err(e) => e == LsmError::IoError && open_table(id, file@) is None,
            },
    {
        let bloom_filter_offset = match file.get_bloom_filter_offset() {
            Ok(x) => x,
            Err(e) => {
                return Err(e);
            },
        };
        let bloom_filter = match file.load_bloom_filter(bloom_filter_offset) {
            Ok(x) => x,
            Err(e) => {
                return Err(e);
            },
        };
        let meta_block_offset = match file.get_meta_block_offset(bloom_filter_offset) {
            Ok(x) => x,
            Err(e) => {
                return Err(e);
            },
        };
        let meta_blocks = match file.load_meta_blocks(meta_block_offset, bloom_filter_offset) {
            Ok(x) => x,
            Err(e) => {
                return Err(e);
            },
        };
        Ok(Self::new(id, file, meta_blocks, meta_block_offset, block_cache, bloom_filter))
    }

    /// Reads and decodes block `block_index` from the image.
    pub fn read_block(&self, block_index: usize) -> (r: Result<Arc<Block>, LsmError>)
        requires
            block_index < self@.metas.len(),
        ensures
            match r {
                Ok(b) => block_at(self@, block_index as int) == Some(b@),
                Err(e) => e == LsmError::IoError && block_at(self@, block_index as int) is None,
            },
    {
        let n = self.meta_blocks.len();
        assert(n == self@.metas.len());
        let offset = self.meta_blocks[block_index].get_offset();
        let next_offset = if block_index + 1 < n {
            self.meta_blocks[block_index + 1].get_offset()
        } else {
            self.meta_block_offset
        };
        if next_offset < offset {
            return Err(LsmError::IoError);
        }
        let block_size = next_offset - offset;
        match self.file.load_block_to_mem(offset, block_size) {
            Ok(res) => Ok(Arc::new(res)),
            Err(e) => Err(e),
        }
    }

    /// Block `block_index` through the block cache, where the table has one:
    /// the block that the cache holds under the table's id and the index, or
    /// else the block read from the image. Without a cache, the block read
    /// from the image.
    pub fn read_block_cached(&self, block_index: usize) -> (r: Result<Arc<Block>, LsmError>)
        requires
            block_index < self@.metas.len(),
        ensures
            !self.cached() ==> match r {
                Ok(b) => block_at(self@, block_index as int) == Some(b@),
                Err(e) => e == LsmError::IoError && block_at(self@, block_index as int) is None,
            },
    {
        match &self.block_cache {
            Some(cache) => cache_try_get_with(cache, self, block_index),
            None => self.read_block(block_index),
        }
    }

    /// Whether `block` is block `block_index` of the image: its serialized
    /// form stands in the image where the block's record says. A block that
    /// passes is the block that `read_block` gives.
    fn holds_block(&self, block: &Block, block_index: usize) -> (r: bool)
        requires
            block_index < self@.metas.len(),
        ensures
            r == stands_in_image(self@, block@, block_index as int),
            r ==> block_at(self@, block_index as int) == Some(block@),
    {
        let n = self.meta_blocks.len();
        assert(n == self@.metas.len());
        let offset = self.meta_blocks[block_index].get_offset();
        let next_offset = if block_index + 1 < n {
            self.meta_blocks[block_index + 1].get_offset()
        } else {
            self.meta_block_offset
        };
        if next_offset < offset || block.end_of_data_offset() as usize != block.data().len() {
            return false;
        }
        let encoded = block.encode();
        let held =
            self.file.holds_region(offset as usize, next_offset as usize, encoded.as_slice());
        proof {
            if held {
                lemma_decode_encode(block@);
            }
        }
        held
    }

    /// Block `block_index` as the cursors of the table load it: through the
    /// block cache where the table has one, and from the image where the
    /// cache has no block or a block that is not that of the image.
    pub fn load_block(&self, block_index: usize) -> (r: Result<Arc<Block>, LsmError>)
        requires
            block_index < self@.metas.len(),
        ensures
            match r {
                Ok(b) => block_at(self@, block_index as int) == Some(b@),
                Err(e) => e == LsmError::IoError && block_at(self@, block_index as int) is None,
            },
    {
        if self.block_cache.is_some() {
            match self.read_block_cached(block_index) {
                Ok(block) => {
                    if self.holds_block(&block, block_index) {
                        return Ok(block);
                    }
                },
                Err(_) => {},
            }
        }
        self.read_block(block_index)
    }

    /// The index of the last block whose first key is no larger than `key`,
    /// found by binary search; the first block where every block begins with
    /// a larger key.
    pub fn get_block_index_for_key(&self, key: &TimestampedKey) -> (r: usize)
        requires
            self@.metas.len() > 0,
        ensures
            r < self@.metas.len(),
            first_keys_ascend(self@.metas) ==> starts_at(self@.metas, key.bytes(), r as int),
    {
        let ghost metas = self@.metas;
        let n = self.meta_blocks.len();
        let mut lo: usize = 0;
        let mut hi: usize = n - 1;
        while lo < hi
            invariant
                lo <= hi < n,
                n == self.meta_blocks@.len(),
                metas == self@.metas,
                first_keys_ascend(metas) ==> {
                    &&& forall|i: int|
                        hi < i < n ==> lex_lt(key.bytes(), (#[trigger] metas[i]).first_key)
                    &&& (lo == 0 || lex_le(metas[lo as int].first_key, key.bytes()))
                },
            decreases hi - lo,
        {
            let mid = lo + (hi - lo + 1) / 2;
            let first_key = self.meta_blocks[mid].get_first_key();
            assert(first_key@ == metas[mid as int].first_key);
            proof {
                lemma_lex_trichotomy(first_key@, key.bytes());
            }
            match compare(first_key.as_slice(), key.key_ref().as_slice()) {
                Rank::Before => {
                    lo = mid;
                },
                Rank::After => {
                    proof {
                        if first_keys_ascend(metas) {
                            assert forall|i: int| mid - 1 < i < n implies lex_lt(
                                key.bytes(),
                                (#[trigger] metas[i]).first_key,
                            ) by {
                                if i > mid {
                                    assert(lex_lt(metas[mid as int].first_key, metas[i].first_key));
                                    lemma_lex_lt_transitive(
                                        key.bytes(),
                                        first_key@,
                                        metas[i].first_key,
                                    );
                                }
                            }
                        }
                    }
                    hi = mid - 1;
                },
                Rank::Same => {
                    proof {
                        if first_keys_ascend(metas) {
                            assert forall|i: int| mid < i < n implies lex_lt(
                                key.bytes(),
                                (#[trigger] metas[i]).first_key,
                            ) by {
                                assert(lex_lt(metas[mid as int].first_key, metas[i].first_key));
                            }
                        }
                    }
                    return mid;
                },
            }
        }
        lo
    }

    /// The id of the table.
    pub fn get_id(&self) -> (r: usize)
        ensures
            r == self@.id,
    {
        self.id
    }

    /// The number of blocks of the table.
    pub fn num_blocks(&self) -> (r: usize)
        ensures
            r == self@.metas.len(),
    {
        self.meta_blocks.len()
    }

    /// The metadata record of block `block_index`.
    pub fn meta_block(&self, block_index: usize) -> (r: &BlockMetadata)
        requires
            block_index < self@.metas.len(),
        ensures
            r@ == self@.metas[block_index as int],
    {
        &self.meta_blocks[block_index]
    }

    /// The offset of the meta region in the file.
    pub fn get_meta_block_offset(&self) -> (r: u32)
        ensures
            r == self@.meta_block_offset,
    {
        self.meta_block_offset
    }

    /// The image of the table's file.
    pub fn file(&self) -> (r: &File)
        ensures
            r@ == self@.image,
    {
        &self.file
    }

    /// The table's bloom filter.
    pub fn bloom_filter(&self) -> (r: &BloomFilter)
        ensures
            r@ == self@.bloom,
    {
        &self.bloom_filter
    }

    /// The first key of the first block.
    pub fn get_first_key(&self) -> (r: TimestampedKey)
        requires
            self@.metas.len() > 0,
        ensures
            r.bytes() == self@.metas[0].first_key,
            r.timestamp() == 0,
    {
        TimestampedKey::new(copy_bytes(self.meta_blocks[0].get_first_key().as_slice()))
    }

    /// The last key of the last block.
    pub fn get_last_key(&self) -> (r: TimestampedKey)
        requires
            self@.metas.len() > 0,
        ensures
            r.bytes() == self@.metas.last().last_key,
            r.timestamp() == 0,
    {
        let n = self.meta_blocks.len();
        TimestampedKey::new(copy_bytes(self.meta_blocks[n - 1].get_last_key().as_slice()))
    }

    /// Whether the table may hold `key`.
    pub fn maybe_contains_key(&self, key: &[u8]) -> (r: bool)
        requires
            self@.metas.len() > 0,
        ensures
            r == may_hold(self@, key@),
    {
        let n = self.meta_blocks.len();
        if !self.bloom_filter.maybe_contains(key) {
            return false;
        }
        let first = self.meta_blocks[0].get_first_key();
        let last = self.meta_blocks[n - 1].get_last_key();
        match compare(first.as_slice(), key) {
            Rank::After => {
                return false;
            },
            _ => {},
        }
        match compare(key, last.as_slice()) {
            Rank::After => false,
            _ => true,
        }
    }
}

} // verus!
