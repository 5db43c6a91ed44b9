use crate::block::{
    be16, entries_of, entry_at, first_key_of, parse_first, parse_later, push_be16, read_be16,
    readable, Block, BlockView,
};
use crate::error::LsmError;
use crate::kv::kv_pair::KeyValuePair;
use crate::lex::{common_prefix_len, copy_bytes, lemma_common_prefix, shared_prefix_len};
use vstd::prelude::*;

verus! {

/// The largest length and offset that the block format can record.
pub const MAX_U16: usize = 65535;

/// A block as a builder leaves it: the end-of-data value is the length of the
/// entry region, every entry can be read, only a block without entries has
/// an empty entry region, and the entry region has at least four bytes for
/// each entry.
pub open spec fn well_formed(b: BlockView) -> bool {
    &&& b.end_of_data_offset == b.data.len()
    &&& readable(b)
    &&& (b.offsets.len() == 0 ==> b.data.len() == 0)
    &&& 4 * b.offsets.len() <= b.data.len()
}

/// The bytes that store `key` and `value` as the next entry of block `b`: in
/// full as the first entry, else with the key cut down to what follows its
/// longest common prefix with the block's first key.
pub open spec fn stored_entry(b: BlockView, key: Seq<u8>, value: Seq<u8>) -> Seq<u8> {
    if b.offsets.len() == 0 {
        be16(key.len() as u16) + key + be16(value.len() as u16) + value
    } else {
        let overlap = common_prefix_len(key, first_key_of(b));
        be16(overlap as u16) + be16((key.len() - overlap) as u16) + key.subrange(
            overlap,
            key.len() as int,
        ) + be16(value.len() as u16) + value
    }
}

/// Whether `key` and `value` can be stored as the next entry of `b`: their
/// lengths, and the length of the entry region after them, fit in 16 bits.
pub open spec fn fits(b: BlockView, key: Seq<u8>, value: Seq<u8>) -> bool {
    &&& key.len() <= MAX_U16
    &&& value.len() <= MAX_U16
    &&& b.data.len() + stored_entry(b, key, value).len() <= MAX_U16
}

/// Block `b` after `key` and `value` are stored as its next entry.
pub open spec fn appended(b: BlockView, key: Seq<u8>, value: Seq<u8>) -> BlockView {
    BlockView {
        data: b.data + stored_entry(b, key, value),
        offsets: b.offsets.push(b.data.len() as u16),
        end_of_data_offset: (b.data.len() + stored_entry(b, key, value).len()) as u16,
    }
}

/// The length of the serialized form of `b`.
pub open spec fn serialized_size(b: BlockView) -> int {
    (b.data.len() + 2 * b.offsets.len() + 2) as int
}

/// The size that is held against the target when an entry with a key of
/// `key_len` bytes and a value of `value_len` bytes is offered to `b`: for a
/// first entry its own cost, for a later one the serialized size plus its
/// cost with the key counted in full.
pub open spec fn projected_size(b: BlockView, key_len: int, value_len: int) -> int {
    if b.offsets.len() == 0 {
        2 + key_len + 2 + value_len + 2
    } else {
        serialized_size(b) + 4 + key_len + 2 + value_len + 2
    }
}

/// The smaller of `n` and the largest `usize`.
pub open spec fn clamp_usize(n: int) -> usize {
    if n <= usize::MAX {
        n as usize
    } else {
        usize::MAX
    }
}

/// An entry can be read the same from a longer entry region.
pub proof fn lemma_parse_extend(data: Seq<u8>, ext: Seq<u8>, off: int, first_key: Seq<u8>)
    ensures
        parse_first(data, off) is Some ==> parse_first(data + ext, off) == parse_first(data, off),
        parse_later(data, off, first_key) is Some ==> parse_later(data + ext, off, first_key)
            == parse_later(data, off, first_key),
{
    let d2 = data + ext;
    if parse_first(data, off) is Some {
        let klen = read_be16(data, off) as int;
        let ks = off + 2;
        assert(read_be16(d2, off) == read_be16(data, off));
        assert(read_be16(d2, ks + klen) == read_be16(data, ks + klen));
        let vlen = read_be16(data, ks + klen) as int;
        let vs = ks + klen + 2;
        assert(d2.subrange(ks, ks + klen) =~= data.subrange(ks, ks + klen));
        assert(d2.subrange(vs, vs + vlen) =~= data.subrange(vs, vs + vlen));
    }
    if parse_later(data, off, first_key) is Some {
        let rest = read_be16(data, off + 2) as int;
        let ks = off + 4;
        assert(read_be16(d2, off) == read_be16(data, off));
        assert(read_be16(d2, off + 2) == read_be16(data, off + 2));
        assert(read_be16(d2, ks + rest) == read_be16(data, ks + rest));
        let vlen = read_be16(data, ks + rest) as int;
        let vs = ks + rest + 2;
        assert(d2.subrange(ks, ks + rest) =~= data.subrange(ks, ks + rest));
        assert(d2.subrange(vs, vs + vlen) =~= data.subrange(vs, vs + vlen));
    }
}

/// An entry stored in full at the end of an entry region reads back as it
/// was stored.
pub proof fn lemma_parse_stored_first(data: Seq<u8>, key: Seq<u8>, value: Seq<u8>)
    requires
        key.len() <= MAX_U16,
        value.len() <= MAX_U16,
    ensures
        parse_first(
            data + (be16(key.len() as u16) + key + be16(value.len() as u16) + value),
            data.len() as int,
        ) == Some((key, value)),
{
    let e = be16(key.len() as u16) + key + be16(value.len() as u16) + value;
    let d2 = data + e;
    let off = data.len() as int;
    let ks = off + 2;
    let klen = key.len() as int;
    let vs = ks + klen + 2;
    let vlen = value.len() as int;
    assert(e.len() == 4 + klen + vlen);
    assert(d2[off] == be16(key.len() as u16)[0]);
    assert(d2[off + 1] == be16(key.len() as u16)[1]);
    assert(read_be16(d2, off) == klen);
    assert(d2[ks + klen] == be16(value.len() as u16)[0]);
    assert(d2[ks + klen + 1] == be16(value.len() as u16)[1]);
    assert(read_be16(d2, ks + klen) == vlen);
    assert(d2.subrange(ks, ks + klen) =~= key);
    assert(d2.subrange(vs, vs + vlen) =~= value);
}

/// An entry stored against a first key at the end of an entry region reads
/// back as it was stored.
pub proof fn lemma_parse_stored_later(
    data: Seq<u8>,
    first_key: Seq<u8>,
    key: Seq<u8>,
    value: Seq<u8>,
)
    requires
        key.len() <= MAX_U16,
        value.len() <= MAX_U16,
    ensures
        ({
            let overlap = common_prefix_len(key, first_key);
            parse_later(
                data + (be16(overlap as u16) + be16((key.len() - overlap) as u16) + key.subrange(
                    overlap,
                    key.len() as int,
                ) + be16(value.len() as u16) + value),
                data.len() as int,
                first_key,
            ) == Some((key, value))
        }),
{
    lemma_common_prefix(key, first_key);
    let overlap = common_prefix_len(key, first_key);
    let rest = key.len() - overlap;
    let e = be16(overlap as u16) + be16(rest as u16) + key.subrange(overlap, key.len() as int)
        + be16(value.len() as u16) + value;
    let d2 = data + e;
    let off = data.len() as int;
    let ks = off + 4;
    let vs = ks + rest + 2;
    let vlen = value.len() as int;
    assert(e.len() == 6 + rest + vlen);
    assert(d2[off] == be16(overlap as u16)[0]);
    assert(d2[off + 1] == be16(overlap as u16)[1]);
    assert(read_be16(d2, off) == overlap);
    assert(d2[off + 2] == be16(rest as u16)[0]);
    assert(d2[off + 3] == be16(rest as u16)[1]);
    assert(read_be16(d2, off + 2) == rest);
    assert(d2[ks + rest] == be16(value.len() as u16)[0]);
    assert(d2[ks + rest + 1] == be16(value.len() as u16)[1]);
    assert(read_be16(d2, ks + rest) == vlen);
    assert(d2.subrange(ks, ks + rest) =~= key.subrange(overlap, key.len() as int));
    assert(d2.subrange(vs, vs + vlen) =~= value);
    assert(first_key.subrange(0, overlap) =~= key.subrange(0, overlap));
    assert(key.subrange(0, overlap) + key.subrange(overlap, key.len() as int) =~= key);
}

/// A well-formed block to which an entry that fits is appended is well
/// formed, keeps its entries, and has the new entry as its last.
pub proof fn lemma_appended(b: BlockView, key: Seq<u8>, value: Seq<u8>)
    requires
        well_formed(b),
        fits(b, key, value),
    ensures
        well_formed(appended(b, key, value)),
        entries_of(appended(b, key, value)) == entries_of(b).push((key, value)),
        b.offsets.len() > 0 ==> first_key_of(appended(b, key, value)) == first_key_of(b),
        b.offsets.len() == 0 ==> first_key_of(appended(b, key, value)) == key,
{
    reveal(entry_at);
    let a = appended(b, key, value);
    let e = stored_entry(b, key, value);
    let n = b.offsets.len() as int;
    if n == 0 {
        lemma_parse_stored_first(b.data, key, value);
        assert(entry_at(a, 0) == Some((key, value)));
        assert(first_key_of(a) == key);
    } else {
        assert(entry_at(b, 0) is Some);
        lemma_parse_extend(b.data, e, b.offsets[0] as int, Seq::empty());
        assert(first_key_of(a) == first_key_of(b));
        lemma_parse_stored_later(b.data, first_key_of(b), key, value);
        assert(entry_at(a, n) == Some((key, value)));
    }
    assert forall|i: int| 0 <= i < n implies #[trigger] entry_at(a, i) == entry_at(b, i) by {
        assert(entry_at(b, i) is Some);
        lemma_parse_extend(b.data, e, b.offsets[i] as int, first_key_of(b));
    }
    assert(entries_of(a) =~= entries_of(b).push((key, value)));
}

/// Accumulates entries into a block of a target size.
pub struct BlockBuilder {
    data: Vec<u8>,
    offsets: Vec<u16>,
    current_offset: u16,
    block_size: usize,
    first_key: Vec<u8>,
}

impl View for BlockBuilder {
    type V = BlockView;

    /// The block that `build` would give.
    closed spec fn view(&self) -> BlockView {
        BlockView {
            data: self.data@,
            offsets: self.offsets@,
            end_of_data_offset: self.current_offset,
        }
    }
}

/// Appends `bytes` to `out`.
pub fn extend_bytes(out: &mut Vec<u8>, bytes: &[u8])
    ensures
        final(out)@ == old(out)@ + bytes@,
{
    let mut i: usize = 0;
    while i < bytes.len()
        invariant
            i <= bytes.len(),
            out@ == old(out)@ + bytes@.subrange(0, i as int),
        decreases bytes.len() - i,
    {
        out.push(bytes[i]);
        assert(out@ =~= old(out)@ + bytes@.subrange(0, i + 1));
        i += 1;
    }
    assert(bytes@.subrange(0, bytes.len() as int) =~= bytes@);
}

/// The sum of `a` and `b`, or the largest `usize` where the sum is larger.
pub fn add_clamped(a: usize, b: usize) -> (r: usize)
    ensures
        r == clamp_usize(a + b),
{
    if a > usize::MAX - b {
        usize::MAX
    } else {
        a + b
    }
}

impl BlockBuilder {
    /// The target size of the block in bytes.
    pub closed spec fn target(&self) -> usize {
        self.block_size
    }

    /// The builder's invariant: the block it holds is well formed, and the
    /// first key it remembers is that block's first key.
    pub closed spec fn wf(&self) -> bool {
        &&& well_formed(self@)
        &&& self.first_key@ == first_key_of(self@)
    }

    /// A builder's block is well formed.
    pub proof fn lemma_wf(&self)
        requires
            self.wf(),
        ensures
            well_formed(self@),
    {
    }

    /// An empty builder with the given target size.
    pub fn new(block_size: usize) -> (b: Self)
        ensures
            b.wf(),
            b.target() == block_size,
            b@ == (BlockView { data: Seq::empty(), offsets: Seq::empty(), end_of_data_offset: 0 }),
    {
        Self {
            data: Vec::new(),
            offsets: Vec::new(),
            current_offset: 0,
            block_size,
            first_key: Vec::new(),
        }
    }

    /// Stores `kv` as the next entry. A first entry is taken whatever the
    /// target size. A later entry is refused with `BlockFull` where the
    /// projected size exceeds the target. An entry that the format cannot
    /// record is refused with `SizeOverflow`. A refused entry leaves the
    /// builder as it was.
    pub fn add(&mut self, kv: KeyValuePair) -> (r: Result<(), LsmError>)
        requires
            old(self).wf(),
        ensures
            final(self).wf(),
            final(self).target() == old(self).target(),
            r == (if old(self)@.offsets.len() > 0 && clamp_usize(
                projected_size(old(self)@, kv@.key.len() as int, kv@.value.len() as int),
            ) > old(self).target() {
                Err::<(), LsmError>(LsmError::BlockFull)
            } else if !fits(old(self)@, kv@.key, kv@.value) {
                Err(LsmError::SizeOverflow)
            } else {
                Ok(())
            }),
            r is Ok ==> final(self)@ == appended(old(self)@, kv@.key, kv@.value),
            r is Ok ==> entries_of(final(self)@) == entries_of(old(self)@).push(
                (kv@.key, kv@.value),
            ),
            r is Err ==> final(self)@ == old(self)@,
    {
        if !self.is_empty() && self.get_block_size_with_kv(&kv) > self.block_size {
            return Err(LsmError::BlockFull);
        }
        let key = kv.key.key_ref();
        let klen = key.len();
        let vlen = kv.value.len();
        if klen > MAX_U16 || vlen > MAX_U16 {
            return Err(LsmError::SizeOverflow);
        }
        let first = self.offsets.len() == 0;
        let overlap: usize = if first {
            0
        } else {
            shared_prefix_len(key.as_slice(), self.first_key.as_slice())
        };
        proof {
            lemma_common_prefix(key@, self.first_key@);
        }
        let rest: usize = klen - overlap;
        let entry_len: usize = if first {
            4 + klen + vlen
        } else {
            6 + rest + vlen
        };
        let ghost before = self@;
        assert(stored_entry(before, key@, kv.value@).len() == entry_len);
        if self.data.len() + entry_len > MAX_U16 {
            return Err(LsmError::SizeOverflow);
        }
        self.offsets.push(self.current_offset);
        if first {
            self.first_key = copy_bytes(key.as_slice());
            push_be16(&mut self.data, klen as u16);
            extend_bytes(&mut self.data, key.as_slice());
        } else {
            push_be16(&mut self.data, overlap as u16);
            push_be16(&mut self.data, rest as u16);
            let ghost so_far = self.data@;
            let mut i: usize = overlap;
            while i < klen
                invariant
                    overlap <= i <= klen,
                    klen == key@.len(),
                    self.data@ == so_far + key@.subrange(overlap as int, i as int),
                    self.offsets@ == before.offsets.push(before.data.len() as u16),
                    self.current_offset == before.end_of_data_offset,
                    self.first_key@ == first_key_of(before),
                    self.block_size == old(self).block_size,
                decreases klen - i,
            {
                self.data.push(key[i]);
                assert(self.data@ =~= so_far + key@.subrange(overlap as int, i + 1));
                i += 1;
            }
        }
        push_be16(&mut self.data, vlen as u16);
        extend_bytes(&mut self.data, kv.value.as_slice());
        self.current_offset = self.current_offset + entry_len as u16;
        proof {
            assert(self.data@ =~= before.data + stored_entry(before, key@, kv.value@));
            assert(self@ == appended(before, key@, kv.value@));
            lemma_appended(before, key@, kv.value@);
        }
        Ok(())
    }

    /// The block of the entries stored so far.
    pub fn build(self) -> (b: Block)
        ensures
            b@ == self@,
    {
        Block::new(self.data, self.offsets, self.current_offset)
    }

    /// Whether no entry is stored yet.
    pub fn is_empty(&self) -> (r: bool)
        requires
            self.wf(),
        ensures
            r == (self@.offsets.len() == 0),
    {
        proof {
            reveal(entry_at);
            if self@.offsets.len() > 0 {
                assert(entry_at(self@, 0) is Some);
            }
        }
        self.data.len() == 0
    }

    /// The length of the serialized form of the block stored so far.
    pub fn get_block_size(&self) -> (r: usize)
        ensures
            r == clamp_usize(serialized_size(self@)),
    {
        let index = add_clamped(self.offsets.len(), self.offsets.len());
        add_clamped(add_clamped(self.data.len(), index), 2)
    }

    /// The size that is held against the target if `kv` is offered.
    pub fn get_block_size_with_kv(&self, kv: &KeyValuePair) -> (r: usize)
        requires
            self.wf(),
        ensures
            r == clamp_usize(
                projected_size(self@, kv@.key.len() as int, kv@.value.len() as int),
            ),
    {
        let klen = kv.key.key_ref().len();
        let vlen = kv.value.len();
        let cost = add_clamped(add_clamped(klen, vlen), 6);
        if self.is_empty() {
            cost
        } else {
            add_clamped(add_clamped(self.get_block_size(), cost), 2)
        }
    }
}

} // verus!
