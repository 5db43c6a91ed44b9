//! The block: a run of entries with prefix-compressed keys, followed by an
//! index of 16-bit offsets and the length of the entry region.

pub mod builder;
pub mod iterator;
pub mod metadata;

use crate::lex::equal;
use vstd::prelude::*;
use vstd::std_specs::cmp::PartialEqSpecImpl;

verus! {

/// The two bytes of a 16-bit number, most significant first.
pub open spec fn be16(x: u16) -> Seq<u8> {
    seq![(x / 256) as u8, (x % 256) as u8]
}

/// The 16-bit number that two bytes spell, most significant first.
pub open spec fn from_be16(hi: u8, lo: u8) -> u16 {
    (hi * 256 + lo) as u16
}

/// The 16-bit big-endian number at position `at` of `data`.
pub open spec fn read_be16(data: Seq<u8>, at: int) -> u16 {
    from_be16(data[at], data[at + 1])
}

/// The bytes of a list of 16-bit numbers, each big-endian, in order.
pub open spec fn be16_list(xs: Seq<u16>) -> Seq<u8> {
    Seq::new(
        2 * xs.len(),
        |i: int|
            if i % 2 == 0 {
                (xs[i / 2] / 256) as u8
            } else {
                (xs[i / 2] % 256) as u8
            },
    )
}

/// The list of 16-bit numbers that `bytes` spells, two bytes each; a last odd
/// byte is left out.
pub open spec fn be16_unlist(bytes: Seq<u8>) -> Seq<u16> {
    Seq::new(bytes.len() / 2, |i: int| read_be16(bytes, 2 * i))
}

/// What a block holds: the entry region, the offset of each entry in it, and
/// the recorded length of the entry region.
pub struct BlockView {
    pub data: Seq<u8>,
    pub offsets: Seq<u16>,
    pub end_of_data_offset: u16,
}

/// The serialized form of a block: entry region, offsets, end-of-data value.
pub open spec fn encode_block(b: BlockView) -> Seq<u8> {
    b.data + be16_list(b.offsets) + be16(b.end_of_data_offset)
}

/// Whether `bytes` can be decoded: it ends in an end-of-data value that
/// points no further than the start of that value.
pub open spec fn decodable(bytes: Seq<u8>) -> bool {
    bytes.len() >= 2 && read_be16(bytes, bytes.len() - 2) <= bytes.len() - 2
}

/// The block that `bytes` spells.
pub open spec fn decode_block(bytes: Seq<u8>) -> BlockView {
    let end = read_be16(bytes, bytes.len() - 2);
    BlockView {
        data: bytes.subrange(0, end as int),
        offsets: be16_unlist(bytes.subrange(end as int, bytes.len() - 2)),
        end_of_data_offset: end,
    }
}

/// A key and a value as byte strings.
pub type RawEntry = (Seq<u8>, Seq<u8>);

/// The first entry of a block, stored in full at `off`:
/// key length, key, value length, value. `None` where the region is too short.
pub open spec fn parse_first(data: Seq<u8>, off: int) -> Option<RawEntry> {
    if off < 0 || off + 2 > data.len() {
        None
    } else {
        let klen = read_be16(data, off) as int;
        let ks = off + 2;
        if ks + klen + 2 > data.len() {
            None
        } else {
            let vlen = read_be16(data, ks + klen) as int;
            let vs = ks + klen + 2;
            if vs + vlen > data.len() {
                None
            } else {
                Some((data.subrange(ks, ks + klen), data.subrange(vs, vs + vlen)))
            }
        }
    }
}

/// A later entry of a block, stored at `off` against the block's first key:
/// overlap length, rest length, rest of the key, value length, value. The key
/// is the first `overlap` bytes of `first_key` followed by the rest. `None`
/// where the region or the first key is too short.
pub open spec fn parse_later(data: Seq<u8>, off: int, first_key: Seq<u8>) -> Option<RawEntry> {
    if off < 0 || off + 4 > data.len() {
        None
    } else {
        let overlap = read_be16(data, off) as int;
        let rest = read_be16(data, off + 2) as int;
        let ks = off + 4;
        if overlap > first_key.len() || ks + rest + 2 > data.len() {
            None
        } else {
            let vlen = read_be16(data, ks + rest) as int;
            let vs = ks + rest + 2;
            if vs + vlen > data.len() {
                None
            } else {
                Some(
                    (
                        first_key.subrange(0, overlap) + data.subrange(ks, ks + rest),
                        data.subrange(vs, vs + vlen),
                    ),
                )
            }
        }
    }
}

/// The first key of a block: the key of its first entry, or the empty string
/// where the block has no first entry that can be read.
pub open spec fn first_key_of(b: BlockView) -> Seq<u8> {
    if b.offsets.len() == 0 {
        Seq::empty()
    } else {
        match parse_first(b.data, b.offsets[0] as int) {
            Some(e) => e.0,
            None => Seq::empty(),
        }
    }
}

/// The entry with index `i` of a block, or `None` where `i` is no index of
/// the block or the entry cannot be read.
#[verifier::opaque]
pub open spec fn entry_at(b: BlockView, i: int) -> Option<RawEntry> {
    if i < 0 || i >= b.offsets.len() {
        None
    } else if i == 0 {
        parse_first(b.data, b.offsets[0] as int)
    } else {
        parse_later(b.data, b.offsets[i] as int, first_key_of(b))
    }
}

/// Every entry of the block can be read.
pub open spec fn readable(b: BlockView) -> bool {
    forall|i: int| 0 <= i < b.offsets.len() ==> (#[trigger] entry_at(b, i)) is Some
}

/// The entries of a readable block, in the order of its offsets.
pub open spec fn entries_of(b: BlockView) -> Seq<RawEntry> {
    Seq::new(b.offsets.len(), |i: int| entry_at(b, i).unwrap())
}

/// The first key of a block whose first entry can be read is the key of
/// that entry; and a block has an entry only at an index of its offsets.
pub proof fn lemma_entry_at(b: BlockView, i: int)
    ensures
        entry_at(b, i) is Some ==> 0 <= i < b.offsets.len(),
        i == 0 && entry_at(b, 0) is Some ==> first_key_of(b) == entry_at(b, 0).unwrap().0,
{
    reveal(entry_at);
}

/// Two bytes read back as a 16-bit number give the number they were written
/// from.
pub proof fn lemma_be16_roundtrip(x: u16)
    ensures
        be16(x).len() == 2,
        from_be16(be16(x)[0], be16(x)[1]) == x,
{
}

/// A list of 16-bit numbers read back from its bytes is the list.
pub proof fn lemma_be16_list_roundtrip(xs: Seq<u16>)
    ensures
        be16_unlist(be16_list(xs)) == xs,
{
    let bytes = be16_list(xs);
    assert(bytes.len() / 2 == xs.len());
    assert forall|i: int| 0 <= i < xs.len() implies be16_unlist(bytes)[i] == xs[i] by {
        assert(bytes[2 * i] == (xs[i] / 256) as u8);
        assert((2 * i + 1) / 2 == i);
        assert(bytes[2 * i + 1] == (xs[i] % 256) as u8);
    }
    assert(be16_unlist(bytes) =~= xs);
}

/// Decoding the serialized form of a block gives the block back, where the
/// recorded end-of-data value is the length of the entry region.
pub proof fn lemma_decode_encode(b: BlockView)
    requires
        b.end_of_data_offset == b.data.len(),
    ensures
        decodable(encode_block(b)),
        decode_block(encode_block(b)) == b,
{
    let bytes = encode_block(b);
    let n = bytes.len() as int;
    let list = be16_list(b.offsets);
    assert(n == b.data.len() + list.len() + 2);
    assert(bytes[n - 2] == be16(b.end_of_data_offset)[0]);
    assert(bytes[n - 1] == be16(b.end_of_data_offset)[1]);
    lemma_be16_roundtrip(b.end_of_data_offset);
    assert(read_be16(bytes, n - 2) == b.end_of_data_offset);
    assert(bytes.subrange(0, b.data.len() as int) =~= b.data);
    assert(bytes.subrange(b.data.len() as int, n - 2) =~= list);
    lemma_be16_list_roundtrip(b.offsets);
}

/// A block serialized and decoded again is the block, and its entries are
/// read back as they were stored, where the block is as a builder leaves
/// it.
pub proof fn lemma_block_round_trip(b: BlockView)
    requires
        crate::block::builder::well_formed(b),
    ensures
        decodable(encode_block(b)),
        decode_block(encode_block(b)) == b,
        crate::block::iterator::entries_from(decode_block(encode_block(b)), 0)
            == crate::memory::memtable::iterator::stamped_all(entries_of(b)),
{
    lemma_decode_encode(b);
    crate::block::iterator::lemma_entries_from(b, 0);
    assert(crate::block::iterator::entries_from(b, 0)
        =~= crate::memory::memtable::iterator::stamped_all(entries_of(b)));
}

/// A block of a sorted table. Immutable once built.
#[derive(Debug, Eq)]
pub struct Block {
    data: Vec<u8>,
    offsets: Vec<u16>,
    end_of_data_offset: u16,
}

impl View for Block {
    type V = BlockView;

    closed spec fn view(&self) -> BlockView {
        BlockView {
            data: self.data@,
            offsets: self.offsets@,
            end_of_data_offset: self.end_of_data_offset,
        }
    }
}

/// Appends the two big-endian bytes of `x` to `out`.
pub fn push_be16(out: &mut Vec<u8>, x: u16)
    ensures
        final(out)@ == old(out)@ + be16(x),
{
    out.push((x / 256) as u8);
    out.push((x % 256) as u8);
    assert(out@ =~= old(out)@ + be16(x));
}

/// Reads the 16-bit big-endian number at position `at` of `data`.
pub fn get_be16(data: &[u8], at: usize) -> (x: u16)
    requires
        at + 2 <= data@.len(),
    ensures
        x == read_be16(data@, at as int),
{
    let hi: u16 = data[at] as u16;
    let lo: u16 = data[at + 1] as u16;
    hi * 256 + lo
}

impl Block {
    /// A block of the given parts.
    pub fn new(data: Vec<u8>, offsets: Vec<u16>, end_of_data_offset: u16) -> (b: Self)
        ensures
            b@ == (BlockView { data: data@, offsets: offsets@, end_of_data_offset }),
    {
        Self { data, offsets, end_of_data_offset }
    }

    /// The entry region.
    pub fn data(&self) -> (r: &Vec<u8>)
        ensures
            r@ == self@.data,
    {
        &self.data
    }

    /// The offset of each entry in the entry region.
    pub fn offsets(&self) -> (r: &Vec<u16>)
        ensures
            r@ == self@.offsets,
    {
        &self.offsets
    }

    /// The recorded length of the entry region.
    pub fn end_of_data_offset(&self) -> (r: u16)
        ensures
            r == self@.end_of_data_offset,
    {
        self.end_of_data_offset
    }

    /// The serialized form of the block.
    pub fn encode(&self) -> (encoded: Vec<u8>)
        ensures
            encoded@ == encode_block(self@),
    {
        let mut encoded: Vec<u8> = Vec::new();
        let mut i: usize = 0;
        while i < self.data.len()
            invariant
                i <= self.data.len(),
                encoded@ == self.data@.subrange(0, i as int),
            decreases self.data.len() - i,
        {
            encoded.push(self.data[i]);
            assert(self.data@.subrange(0, i as int).push(self.data@[i as int])
                =~= self.data@.subrange(0, i + 1));
            i += 1;
        }
        assert(self.data@.subrange(0, self.data.len() as int) =~= self.data@);
        let mut j: usize = 0;
        while j < self.offsets.len()
            invariant
                j <= self.offsets.len(),
                encoded@ == self.data@ + be16_list(self.offsets@.subrange(0, j as int)),
            decreases self.offsets.len() - j,
        {
            let ghost before = encoded@;
            push_be16(&mut encoded, self.offsets[j]);
            assert(be16_list(self.offsets@.subrange(0, j as int)) + be16(self.offsets@[j as int])
                =~= be16_list(self.offsets@.subrange(0, j + 1)));
            assert(encoded@ =~= self.data@ + be16_list(self.offsets@.subrange(0, j + 1)));
            j += 1;
        }
        assert(self.offsets@.subrange(0, self.offsets.len() as int) =~= self.offsets@);
        push_be16(&mut encoded, self.end_of_data_offset);
        encoded
    }

    /// The block that `encoded_block` spells.
    pub fn decode(encoded_block: Vec<u8>) -> (b: Self)
        requires
            decodable(encoded_block@),
        ensures
            b@ == decode_block(encoded_block@),
    {
        let n = encoded_block.len();
        let end = get_be16(encoded_block.as_slice(), n - 2);
        let end_at: usize = end as usize;
        let mut data: Vec<u8> = Vec::new();
        let mut i: usize = 0;
        while i < end_at
            invariant
                i <= end_at <= n - 2,
                n == encoded_block.len(),
                data@ == encoded_block@.subrange(0, i as int),
            decreases end_at - i,
        {
            data.push(encoded_block[i]);
            assert(encoded_block@.subrange(0, i as int).push(encoded_block@[i as int])
                =~= encoded_block@.subrange(0, i + 1));
            i += 1;
        }
        let ghost region = encoded_block@.subrange(end_at as int, n - 2);
        let count: usize = (n - 2 - end_at) / 2;
        let mut offsets: Vec<u16> = Vec::new();
        let mut j: usize = 0;
        while j < count
            invariant
                j <= count,
                count == (n - 2 - end_at) / 2,
                end_at <= n - 2,
                n == encoded_block.len(),
                region == encoded_block@.subrange(end_at as int, n - 2),
                offsets@ == be16_unlist(region).subrange(0, j as int),
            decreases count - j,
        {
            let x = get_be16(encoded_block.as_slice(), end_at + 2 * j);
            assert(x == read_be16(region, 2 * j));
            offsets.push(x);
            assert(be16_unlist(region).subrange(0, j as int).push(x)
                =~= be16_unlist(region).subrange(0, j + 1));
            j += 1;
        }
        assert(be16_unlist(region).subrange(0, count as int) =~= be16_unlist(region));
        Self { data, offsets, end_of_data_offset: end }
    }

    /// Decodes `encoded_block` where it can be decoded.
    pub fn try_decode(encoded_block: Vec<u8>) -> (r: Option<Self>)
        ensures
            decodable(encoded_block@) <==> r is Some,
            r matches Some(b) ==> b@ == decode_block(encoded_block@),
    {
        let n = encoded_block.len();
        if n < 2 {
            return None;
        }
        let end = get_be16(encoded_block.as_slice(), n - 2);
        if end as usize > n - 2 {
            return None;
        }
        Some(Self::decode(encoded_block))
    }
}

impl PartialEq for Block {
    fn eq(&self, other: &Self) -> (r: bool) {
        if !equal(self.data.as_slice(), other.data.as_slice()) {
            return false;
        }
        if self.end_of_data_offset != other.end_of_data_offset {
            return false;
        }
        if self.offsets.len() != other.offsets.len() {
            return false;
        }
        let mut i: usize = 0;
        while i < self.offsets.len()
            invariant
                i <= self.offsets.len(),
                self.offsets.len() == other.offsets.len(),
                forall|j: int| 0 <= j < i ==> self.offsets@[j] == other.offsets@[j],
            decreases self.offsets.len() - i,
        {
            if self.offsets[i] != other.offsets[i] {
                return false;
            }
            i += 1;
        }
        assert(self.offsets@ =~= other.offsets@);
        true
    }
}

impl PartialEqSpecImpl for Block {
    open spec fn obeys_eq_spec() -> bool {
        true
    }

    open spec fn eq_spec(&self, other: &Self) -> bool {
        self@ == other@
    }
}

} // verus!
