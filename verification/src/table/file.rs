use crate::block::{decodable, decode_block, Block, BlockView};
use crate::block::metadata::{
    get_be32, meta_views, parse_meta_list, read_be32, BlockMetadata, MetaView,
};
use crate::error::LsmError;
use crate::lex::{copy_bytes, equal};
use crate::table::bloom::{bloom_decodable, decode_bloom, BloomFilter, BloomView};
use vstd::prelude::*;
use vstd::slice::{slice_subrange, slice_to_vec};

verus! {

/// The bytes of `image` from `start` up to `end`, where they lie within it.
pub open spec fn region(image: Seq<u8>, start: int, end: int) -> Option<Seq<u8>> {
    if 0 <= start <= end <= image.len() {
        Some(image.subrange(start, end))
    } else {
        None
    }
}

/// The offset of the bloom region: the last four bytes of the image.
pub open spec fn bloom_offset_of(image: Seq<u8>) -> Option<u32> {
    if image.len() >= 4 {
        Some(read_be32(image, image.len() - 4))
    } else {
        None
    }
}

/// The bloom filter of the image: what lies between the bloom offset and the
/// last four bytes.
pub open spec fn bloom_of(image: Seq<u8>, bloom_filter_offset: u32) -> Option<BloomView> {
    match region(image, bloom_filter_offset as int, image.len() - 4) {
        Some(bytes) => if bloom_decodable(bytes) {
            Some(decode_bloom(bytes))
        } else {
            None
        },
        None => None,
    }
}

/// The offset of the meta region: the four bytes that end at the bloom
/// offset.
pub open spec fn meta_offset_of(image: Seq<u8>, bloom_filter_offset: u32) -> Option<u32> {
    if 4 <= bloom_filter_offset <= image.len() {
        Some(read_be32(image, bloom_filter_offset - 4))
    } else {
        None
    }
}

/// The metadata records of the image: what lies between the meta offset and
/// the four bytes that end at the bloom offset.
pub open spec fn metas_of(image: Seq<u8>, meta_block_offset: u32, bloom_filter_offset: u32)
    -> Option<Seq<MetaView>> {
    match region(image, meta_block_offset as int, bloom_filter_offset - 4) {
        Some(bytes) => parse_meta_list(bytes, 0),
        None => None,
    }
}

/// The block serialized in `size` bytes from `offset` of the image.
pub open spec fn block_of(image: Seq<u8>, offset: u32, size: u32) -> Option<BlockView> {
    match region(image, offset as int, offset + size) {
        Some(bytes) => if decodable(bytes) {
            Some(decode_block(bytes))
        } else {
            None
        },
        None => None,
    }
}

/// The image of one sorted-table file, held in memory: reads at a position
/// are reads of a region of the image, and a read that reaches outside it
/// fails.
pub struct File {
    data: Vec<u8>,
}

impl View for File {
    type V = Seq<u8>;

    closed spec fn view(&self) -> Seq<u8> {
        self.data@
    }
}

impl File {
    /// The file that holds `data`.
    pub fn create(data: Vec<u8>) -> (f: Self)
        ensures
            f@ == data@,
    {
        Self { data }
    }

    /// A copy of the whole image.
    pub fn get_contents_as_bytes(&self) -> (r: Vec<u8>)
        ensures
            r@ == self@,
    {
        copy_bytes(self.data.as_slice())
    }

    /// The number of bytes of the image.
    pub fn get_size(&self) -> (r: u64)
        ensures
            r == self@.len(),
    {
        self.data.len() as u64
    }

    /// The region from `start` up to `end`, copied out.
    fn read_region(&self, start: usize, end: usize) -> (r: Result<Vec<u8>, LsmError>)
        ensures
            match r {
                Ok(bytes) => region(self@, start as int, end as int) == Some(bytes@),
                Err(e) => e == LsmError::IoError && region(self@, start as int, end as int)
                    is None,
            },
    {
        if start > end || end > self.data.len() {
            return Err(LsmError::IoError);
        }
        Ok(slice_to_vec(slice_subrange(self.data.as_slice(), start, end)))
    }

    /// Whether the region from `start` up to `end` lies within the image and
    /// holds `bytes`.
    pub fn holds_region(&self, start: usize, end: usize, bytes: &[u8]) -> (r: bool)
        ensures
            r == (region(self@, start as int, end as int) == Some(bytes@)),
    {
        if start > end || end > self.data.len() {
            return false;
        }
        equal(slice_subrange(self.data.as_slice(), start, end), bytes)
    }

    /// Reads and decodes the block of `block_size` bytes at `offset`.
    pub fn load_block_to_mem(&self, offset: u32, block_size: u32) -> (r: Result<Block, LsmError>)
        ensures
            match r {
                Ok(b) => block_of(self@, offset, block_size) == Some(b@),
                Err(e) => e == LsmError::IoError && block_of(self@, offset, block_size) is None,
            },
    {
        let start = offset as usize;
        let n = self.data.len();
        if block_size as usize > n || start > n - block_size as usize {
            return Err(LsmError::IoError);
        }
        match self.read_region(start, start + block_size as usize) {
            Err(e) => Err(e),
            Ok(buffer) => match Block::try_decode(buffer) {
                Some(b) => Ok(b),
                None => Err(LsmError::IoError),
            },
        }
    }

    /// Reads the offset of the meta region.
    pub fn get_meta_block_offset(&self, bloom_filter_offset: u32) -> (r: Result<u32, LsmError>)
        ensures
            match r {
                Ok(x) => meta_offset_of(self@, bloom_filter_offset) == Some(x),
                Err(e) => e == LsmError::IoError && meta_offset_of(self@, bloom_filter_offset)
                    is None,
            },
    {
        let end = bloom_filter_offset as usize;
        if end < 4 || end > self.data.len() {
            return Err(LsmError::IoError);
        }
        Ok(get_be32(self.data.as_slice(), end - 4))
    }

    /// Reads and decodes the metadata records.
    pub fn load_meta_blocks(&self, meta_block_offset: u32, bloom_filter_offset: u32) -> (r: Result<
        Vec<BlockMetadata>,
        LsmError,
    >)
        ensures
            match r {
                Ok(list) => metas_of(self@, meta_block_offset, bloom_filter_offset) == Some(
                    meta_views(list@),
                ),
                Err(e) => e == LsmError::IoError && metas_of(
                    self@,
                    meta_block_offset,
                    bloom_filter_offset,
                ) is None,
            },
    {
        if bloom_filter_offset < 4 {
            return Err(LsmError::IoError);
        }
        match self.read_region(meta_block_offset as usize, bloom_filter_offset as usize - 4) {
            Err(e) => Err(e),
            Ok(buffer) => match BlockMetadata::try_decode_to_list(buffer.as_slice()) {
                Some(list) => Ok(list),
                None => Err(LsmError::IoError),
            },
        }
    }

    /// Reads the offset of the bloom region.
    pub fn get_bloom_filter_offset(&self) -> (r: Result<u32, LsmError>)
        ensures
            match r {
                Ok(x) => bloom_offset_of(self@) == Some(x),
                Err(e) => e == LsmError::IoError && bloom_offset_of(self@) is None,
            },
    {
        let n = self.data.len();
        if n < 4 {
            return Err(LsmError::IoError);
        }
        Ok(get_be32(self.data.as_slice(), n - 4))
    }

    /// Reads and decodes the bloom filter.
    pub fn load_bloom_filter(&self, bloom_filter_offset: u32) -> (r: Result<BloomFilter, LsmError>)
        ensures
            match r {
                Ok(f) => bloom_of(self@, bloom_filter_offset) == Some(f@),
                Err(e) => e == LsmError::IoError && bloom_of(self@, bloom_filter_offset) is None,
            },
    {
        let n = self.data.len();
        if n < 4 {
            return Err(LsmError::IoError);
        }
        match self.read_region(bloom_filter_offset as usize, n - 4) {
            Err(e) => Err(e),
            Ok(buffer) => match BloomFilter::try_decode(buffer) {
                Some(f) => Ok(f),
                None => Err(LsmError::IoError),
            },
        }
    }
}

} // verus!
