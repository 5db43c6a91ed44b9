
use crate::block::{
    entries_of, entry_at, first_key_of, get_be16, parse_first, parse_later, readable, Block,
    BlockView, RawEntry,
};
use crate::iterator::StorageIterator;
use crate::kv::kv_pair::{view_opt, Entry, KeyValuePair};
use crate::kv::timestamped_key::TimestampedKey;
use crate::lex::{compare, lemma_lex_lt_transitive, lemma_lex_trichotomy, lex_le, lex_lt, Rank};
use std::sync::Arc;
use vstd::prelude::*;
use vstd::slice::{slice_subrange, slice_to_vec};

verus! {

/// A key and value read from a block, as an entry with timestamp zero.
pub open spec fn stamped(e: RawEntry) -> Entry {
    Entry { key: e.0, timestamp: 0, value: e.1 }
}

/// An optional key and value as an optional entry with timestamp zero.
pub open spec fn stamped_opt(e: Option<RawEntry>) -> Option<Entry> {
    match e {
        Some(e) => Some(stamped(e)),
        None => None,
    }
}

/// The entries of a block from index `from` on, up to the first that cannot
/// be read.
pub open spec fn entries_from(b: BlockView, from: int) -> Seq<Entry>
    decreases b.offsets.len() - from,
{
    if from < 0 || from >= b.offsets.len() {
        Seq::empty()
    } else {
        match entry_at(b, from) {
            None => Seq::empty(),
            Some(e) => seq![stamped(e)] + entries_from(b, from + 1),
        }
    }
}

/// The keys of the block's entries ascend strictly.
pub open spec fn keys_ascend(b: BlockView) -> bool {
    forall|i: int, j: int|
        0 <= i < j < b.offsets.len() ==> lex_lt(
            (#[trigger] entry_at(b, i)).unwrap().0,
            (#[trigger] entry_at(b, j)).unwrap().0,
        )
}

/// `at` is where a search for `key` lands in a block: every entry before it
/// has a smaller key, and every entry from it on has a key that is no
/// smaller. It is the number of entries where none has such a key.
pub open spec fn lands_at(b: BlockView, key: Seq<u8>, at: int) -> bool {
    &&& 0 <= at <= b.offsets.len()
    &&& forall|i: int| 0 <= i < at ==> lex_lt((#[trigger] entry_at(b, i)).unwrap().0, key)
    &&& forall|i: int|
        at <= i < b.offsets.len() ==> lex_le(key, (#[trigger] entry_at(b, i)).unwrap().0)
}

/// In a readable block the entries from an index on are the rest of its
/// entries.
pub proof fn lemma_entries_from(b: BlockView, from: int)
    requires
        readable(b),
        0 <= from <= b.offsets.len(),
    ensures
        entries_from(b, from) == Seq::new(
            (b.offsets.len() - from) as nat,
            |i: int| stamped(entries_of(b)[from + i]),
        ),
    decreases b.offsets.len() - from,
{
    let rest = Seq::new(
        (b.offsets.len() - from) as nat,
        |i: int| stamped(entries_of(b)[from + i]),
    );
    if from < b.offsets.len() {
        assert(entry_at(b, from) is Some);
        lemma_entries_from(b, from + 1);
        assert(entries_from(b, from) =~= rest);
    } else {
        assert(entries_from(b, from) =~= rest);
    }
}

/// A cursor over the entries of one block.
pub struct BlockIterator {
    block: Arc<Block>,
    current_index: usize,
    current_kv: Option<KeyValuePair>,
    first_key: Vec<u8>,
}

/// Reads the entry stored in full at `off`.
fn read_first(data: &[u8], off: usize) -> (r: Option<KeyValuePair>)
    ensures
        view_opt(r) == stamped_opt(parse_first(data@, off as int)),
{
    let n = data.len();
    if off > n || n - off < 2 {
        return None;
    }
    let klen = get_be16(data, off) as usize;
    let ks = off + 2;
    if n - ks < klen || n - ks - klen < 2 {
        return None;
    }
    let vlen = get_be16(data, ks + klen) as usize;
    let vs = ks + klen + 2;
    if n - vs < vlen {
        return None;
    }
    let key = slice_to_vec(slice_subrange(data, ks, ks + klen));
    let value = slice_to_vec(slice_subrange(data, vs, vs + vlen));
    Some(KeyValuePair { key: TimestampedKey::new(key), value })
}

/// Reads the entry stored at `off` against `first_key`.
fn read_later(data: &[u8], off: usize, first_key: &[u8]) -> (r: Option<KeyValuePair>)
    ensures
        view_opt(r) == stamped_opt(parse_later(data@, off as int, first_key@)),
{
    let n = data.len();
    if off > n || n - off < 4 {
        return None;
    }
    let overlap = get_be16(data, off) as usize;
    let rest = get_be16(data, off + 2) as usize;
    let ks = off + 4;
    if overlap > first_key.len() || n - ks < rest || n - ks - rest < 2 {
        return None;
    }
    let vlen = get_be16(data, ks + rest) as usize;
    let vs = ks + rest + 2;
    if n - vs < vlen {
        return None;
    }
    let mut key = slice_to_vec(slice_subrange(first_key, 0, overlap));
    let mut tail = slice_to_vec(slice_subrange(data, ks, ks + rest));
    key.append(&mut tail);
    let value = slice_to_vec(slice_subrange(data, vs, vs + vlen));
    Some(KeyValuePair { key: TimestampedKey::new(key), value })
}

impl Block {
    /// The key of the block's first entry, or the empty string where the
    /// block has no first entry that can be read.
    pub fn get_first_key(&self) -> (r: Vec<u8>)
        ensures
            r@ == first_key_of(self@),
    {
        if self.offsets().len() == 0 {
            return Vec::new();
        }
        match read_first(self.data().as_slice(), self.offsets()[0] as usize) {
            Some(kv) => kv.key.get_key(),
            None => Vec::new(),
        }
    }

    /// The number of entries of the block.
    pub fn len(&self) -> (r: usize)
        ensures
            r == self@.offsets.len(),
    {
        self.offsets().len()
    }
}

impl BlockIterator {
    /// The block under the cursor.
    pub closed spec fn block(&self) -> BlockView {
        self.block@
    }

    /// The index of the entry under the cursor; the number of entries at the
    /// end.
    pub closed spec fn index(&self) -> int {
        self.current_index as int
    }

    /// The cursor's invariant: the index is within the block or one past its
    /// end, and the entry and the first key that the cursor remembers are
    /// those of the block.
    pub closed spec fn wf(&self) -> bool {
        &&& self.current_index <= self.block@.offsets.len()
        &&& self.first_key@ == first_key_of(self.block@)
        &&& view_opt(self.current_kv)
            == stamped_opt(entry_at(self.block@, self.current_index as int))
    }

    /// A cursor on the first entry of `block`.
    pub fn create_and_seek_to_first(block: Arc<Block>) -> (it: Self)
        ensures
            it.wf(),
            it.block() == block@,
            it.index() == 0,
    {
        let first_key = block.get_first_key();
        let mut res = Self { block, current_index: 0, current_kv: None, first_key };
        res.current_kv = res.parse_current_kv();
        res
    }

    /// A cursor on the first entry of `block` whose key is no smaller than
    /// `key`.
    pub fn create_and_seek_to_key(block: Arc<Block>, key: TimestampedKey) -> (it: Self)
        ensures
            it.wf(),
            it.block() == block@,
            readable(block@) && keys_ascend(block@) ==> lands_at(block@, key.bytes(), it.index()),
    {
        let first_key = block.get_first_key();
        let mut res = Self { block, current_index: 0, current_kv: None, first_key };
        res.current_kv = res.parse_current_kv();
        res.seek_to_key(key);
        res
    }

    /// Moves the cursor to the first entry.
    pub fn seek_to_first(&mut self)
        requires
            old(self).wf(),
        ensures
            final(self).wf(),
            final(self).block() == old(self).block(),
            final(self).index() == 0,
    {
        self.current_index = 0;
        self.current_kv = self.parse_current_kv();
    }

    /// Moves the cursor, by binary search, to the first entry whose key is no
    /// smaller than `key`, or past the last entry where there is none.
    pub fn seek_to_key(&mut self, key: TimestampedKey)
        requires
            old(self).wf(),
        ensures
            final(self).wf(),
            final(self).block() == old(self).block(),
            readable(old(self).block()) && keys_ascend(old(self).block()) ==> lands_at(
                old(self).block(),
                key.bytes(),
                final(self).index(),
            ),
    {
        let ghost b = self.block@;
        let n = self.block.len();
        let mut lo: usize = 0;
        let mut hi: usize = n;
        while lo < hi
            invariant
                lo <= hi <= n,
                n == b.offsets.len(),
                self.block@ == b,
                self.first_key@ == first_key_of(b),
                readable(b) && keys_ascend(b) ==> {
                    &&& forall|i: int|
                        0 <= i < lo ==> lex_lt((#[trigger] entry_at(b, i)).unwrap().0, key.bytes())
                    &&& forall|i: int|
                        hi <= i < n ==> lex_le(key.bytes(), (#[trigger] entry_at(b, i)).unwrap().0)
                },
            decreases hi - lo,
        {
            let mid = lo + (hi - lo) / 2;
            self.current_index = mid;
            let probe = self.parse_current_kv();
            match probe {
                None => {
                    // An entry that cannot be read ends the search.
                    lo = n;
                    hi = n;
                    assert(!readable(b)) by {
                        assert(entry_at(b, mid as int) is None);
                    }
                },
                Some(kv) => {
                    let found = kv.key.key_ref();
                    proof {
                        lemma_lex_trichotomy(found@, key.bytes());
                    }
                    match compare(found.as_slice(), key.key_ref().as_slice()) {
                        Rank::Before => {
                            proof {
                                if readable(b) && keys_ascend(b) {
                                    assert forall|i: int| 0 <= i < mid + 1 implies lex_lt(
                                        (#[trigger] entry_at(b, i)).unwrap().0,
                                        key.bytes(),
                                    ) by {
                                        if i < mid {
                                            assert(lex_lt(
                                                entry_at(b, i).unwrap().0,
                                                entry_at(b, mid as int).unwrap().0,
                                            ));
                                            lemma_lex_lt_transitive(
                                                entry_at(b, i).unwrap().0,
                                                found@,
                                                key.bytes(),
                                            );
                                        }
                                    }
                                }
                            }
                            lo = mid + 1;
                        },
                        Rank::Same | Rank::After => {
                            proof {
                                if readable(b) && keys_ascend(b) {
                                    assert forall|i: int| mid <= i < n implies lex_le(
                                        key.bytes(),
                                        (#[trigger] entry_at(b, i)).unwrap().0,
                                    ) by {
                                        if i > mid {
                                            assert(lex_lt(
                                                entry_at(b, mid as int).unwrap().0,
                                                entry_at(b, i).unwrap().0,
                                            ));
                                            if lex_lt(entry_at(b, i).unwrap().0, key.bytes()) {
                                                lemma_lex_lt_transitive(
                                                    found@,
                                                    entry_at(b, i).unwrap().0,
                                                    key.bytes(),
                                                );
                                            }
                                        }
                                    }
                                }
                            }
                            hi = mid;
                        },
                    }
                },
            }
        }
        self.current_index = lo;
        self.current_kv = self.parse_current_kv();
    }

    /// Reads the entry under the cursor: `None` at the end of the block and
    /// where the entry cannot be read.
    fn parse_current_kv(&self) -> (r: Option<KeyValuePair>)
        requires
            self.first_key@ == first_key_of(self.block@),
        ensures
            view_opt(r) == stamped_opt(entry_at(self.block@, self.current_index as int)),
    {
        proof {
            reveal(entry_at);
        }
        if self.current_index >= self.block.len() {
            return None;
        }
        let off = self.block.offsets()[self.current_index] as usize;
        if self.current_index == 0 {
            read_first(self.block.data().as_slice(), off)
        } else {
            read_later(self.block.data().as_slice(), off, self.first_key.as_slice())
        }
    }

    /// Whether the cursor is past the last entry of the block.
    pub fn at_end(&self) -> (r: bool)
        requires
            self.wf(),
        ensures
            r == (self.index() == self.block().offsets.len()),
    {
        self.current_index == self.block.len()
    }

    /// The first key of the block under the cursor.
    pub fn first_key(&self) -> (r: &Vec<u8>)
        requires
            self.wf(),
        ensures
            r@ == first_key_of(self.block()),
    {
        &self.first_key
    }
}

impl StorageIterator for BlockIterator {
    open spec fn inv(&self) -> bool {
        self.wf()
    }

    open spec fn pending(&self) -> Seq<Entry> {
        entries_from(self.block(), self.index())
    }

    open spec fn ends_cleanly(&self) -> bool {
        true
    }

    fn peek(&mut self) -> (r: Option<KeyValuePair>)
        ensures
            final(self).block() == old(self).block(),
            final(self).index() == old(self).index(),
            view_opt(r) == stamped_opt(entry_at(old(self).block(), old(self).index())),
    {
        proof {
            crate::block::lemma_entry_at(self.block@, self.current_index as int);
        }
        match &self.current_kv {
            Some(kv) => Some(kv.clone()),
            None => None,
        }
    }

    fn is_valid(&self) -> (r: bool) {
        true
    }

    fn next(&mut self) -> (r: Option<KeyValuePair>)
        ensures
            final(self).block() == old(self).block(),
            view_opt(r) == stamped_opt(entry_at(old(self).block(), old(self).index())),
            final(self).index() == old(self).index() + (if r is Some {
                1int
            } else {
                0int
            }),
    {
        proof {
            crate::block::lemma_entry_at(self.block@, self.current_index as int);
        }
        let res = match &self.current_kv {
            Some(kv) => kv.clone(),
            None => {
                return None;
            },
        };
        let n = self.block.len();
        assert(self.current_index < n);
        self.current_index += 1;
        self.current_kv = self.parse_current_kv();
        Some(res)
    }
}

} // verus!
