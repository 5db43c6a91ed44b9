use crate::block::{entry_at, BlockView};
use crate::block::iterator::{stamped, stamped_opt, BlockIterator};
use crate::error::LsmError;
use crate::iterator::StorageIterator;
use crate::kv::kv_pair::{view_opt, Entry, KeyValuePair};
use crate::kv::timestamped_key::TimestampedKey;
use crate::lex::{compare, lex_lt, Rank};
use crate::memory::memtable::iterator::stamped_all;
use crate::table::{block_at, lemma_sound_block, sound, table_entries, Sst, SstView};
use crate::table::lookup::{entries_from_key, lemma_first_keys_ascend, lemma_seek_stream};
use std::sync::Arc;
use vstd::prelude::*;

verus! {

/// The entries that a cursor yields from entry `idx` of block `b`, which is
/// block `bi` of table `v`: the entry under the cursor, then the rest of the
/// block while the key under the cursor is below the last key that the
/// block's record names, then the following blocks from their first entry.
/// The stream ends at an entry that cannot be read, after the last block,
/// and before a block that cannot be read.
pub open spec fn stream_from(v: SstView, bi: int, b: BlockView, idx: int) -> Seq<Entry>
    decreases v.metas.len() - bi, b.offsets.len() - idx,
{
    if bi < 0 || bi >= v.metas.len() || idx < 0 || idx >= b.offsets.len() {
        Seq::empty()
    } else {
        match entry_at(b, idx) {
            None => Seq::empty(),
            Some(e) => if lex_lt(e.0, v.metas[bi].last_key) {
                seq![stamped(e)] + stream_from(v, bi, b, idx + 1)
            } else if bi + 1 >= v.metas.len() {
                seq![stamped(e)]
            } else {
                match block_at(v, bi + 1) {
                    None => seq![stamped(e)],
                    Some(next) => seq![stamped(e)] + stream_from(v, bi + 1, next, 0),
                }
            },
        }
    }
}

/// Whether the stream from a cursor ends without meeting a block that
/// cannot be read.
pub open spec fn stream_clean(v: SstView, bi: int, b: BlockView, idx: int) -> bool
    decreases v.metas.len() - bi, b.offsets.len() - idx,
{
    if bi < 0 || bi >= v.metas.len() || idx < 0 || idx >= b.offsets.len() {
        true
    } else {
        match entry_at(b, idx) {
            None => true,
            Some(e) => if lex_lt(e.0, v.metas[bi].last_key) {
                stream_clean(v, bi, b, idx + 1)
            } else if bi + 1 >= v.metas.len() {
                true
            } else {
                match block_at(v, bi + 1) {
                    None => false,
                    Some(next) => stream_clean(v, bi + 1, next, 0),
                }
            },
        }
    }
}

/// A cursor over the entries of one sorted table, block after block.
pub struct SSTIterator {
    sst: Arc<Sst>,
    block_index: usize,
    block_iterator: BlockIterator,
    current_kv: Option<KeyValuePair>,
    is_valid: bool,
}

impl SSTIterator {
    /// The table under the cursor.
    pub closed spec fn table(&self) -> SstView {
        self.sst@
    }

    /// The index of the block under the cursor; the number of blocks at the
    /// end.
    pub closed spec fn block_index(&self) -> int {
        self.block_index as int
    }

    /// The block under the cursor.
    pub closed spec fn block(&self) -> BlockView {
        self.block_iterator.block()
    }

    /// The index of the entry under the cursor in its block.
    pub closed spec fn entry_index(&self) -> int {
        self.block_iterator.index()
    }

    /// Whether no block load has failed.
    pub closed spec fn valid(&self) -> bool {
        self.is_valid
    }

    /// The cursor's invariant: the entry it remembers is the one under the
    /// cursor, and none at the end.
    pub closed spec fn wf(&self) -> bool {
        &&& self.block_iterator.wf()
        &&& self.block_index <= self.sst@.metas.len()
        &&& self.block_index < self.sst@.metas.len() ==> view_opt(self.current_kv) == stamped_opt(
            entry_at(self.block_iterator.block(), self.block_iterator.index()),
        )
        &&& self.block_index >= self.sst@.metas.len() ==> self.current_kv is None
    }

    /// A cursor on the first entry of the table. Fails where the first
    /// block cannot be read.
    pub fn create_and_seek_to_first(sst: Arc<Sst>) -> (r: Result<Self, LsmError>)
        requires
            sst@.metas.len() > 0,
        ensures
            match r {
                Ok(it) => {
                    &&& it.wf()
                    &&& it.valid()
                    &&& it.table() == sst@
                    &&& it.block_index() == 0
                    &&& block_at(sst@, 0) == Some(it.block())
                    &&& it.entry_index() == 0
                },
                Err(e) => e == LsmError::IoError && block_at(sst@, 0) is None,
            },
    {
        let block = match sst.load_block(0) {
            Ok(b) => b,
            Err(e) => {
                return Err(e);
            },
        };
        let mut block_iterator = BlockIterator::create_and_seek_to_first(block);
        let current_kv = block_iterator.peek();
        Ok(Self { sst, block_index: 0, block_iterator, current_kv, is_valid: true })
    }

    /// The block and the place in it at which a search for `key` stands: the
    /// first entry with a key no smaller than `key` in the last block that
    /// begins with a key no larger than `key`, or, where that block has no
    /// such entry and is not the last, the first entry of the next block.
    /// In a sound table this is the first entry of the table whose key is
    /// no smaller than `key`. Fails where a block that the search needs
    /// cannot be read.
    fn place_at_key(sst: &Arc<Sst>, key: TimestampedKey) -> (r: Result<
        (usize, BlockIterator),
        LsmError,
    >)
        requires
            sst@.metas.len() > 0,
        ensures
            match r {
                Ok((block_index, cursor)) => {
                    &&& cursor.wf()
                    &&& block_index < sst@.metas.len()
                    &&& block_at(sst@, block_index as int) == Some(cursor.block())
                    &&& sound(sst@) ==> stream_from(
                        sst@,
                        block_index as int,
                        cursor.block(),
                        cursor.index(),
                    ) == stamped_all(entries_from_key(table_entries(sst@), key.bytes()))
                },
                Err(e) => e == LsmError::IoError && exists|i: int|
                    0 <= i < sst@.metas.len() && block_at(sst@, i) is None,
            },
    {
        let ghost v = sst@;
        let ghost target = key.bytes();
        let start = sst.get_block_index_for_key(&key);
        let block = match sst.load_block(start) {
            Ok(b) => b,
            Err(e) => {
                assert(block_at(v, start as int) is None);
                return Err(e);
            },
        };
        let cursor = BlockIterator::create_and_seek_to_key(block, key);
        proof {
            if sound(v) {
                lemma_first_keys_ascend(v);
                lemma_sound_block(v, start as int);
                lemma_seek_stream(v, target, start as int, cursor.index());
            }
        }
        let n = sst.num_blocks();
        if cursor.at_end() && start + 1 < n {
            let next = match sst.load_block(start + 1) {
                Ok(b) => b,
                Err(e) => {
                    assert(block_at(v, start + 1) is None);
                    return Err(e);
                },
            };
            Ok((start + 1, BlockIterator::create_and_seek_to_first(next)))
        } else {
            proof {
                if sound(v) {
                    crate::block::lemma_entry_at(cursor.block(), cursor.index());
                }
            }
            Ok((start, cursor))
        }
    }

    /// A cursor on the first entry of the table whose key is no smaller
    /// than `key`, found by a search for the last block that begins with a
    /// key no larger and a search in that block; where that block has no
    /// such entry, the cursor is on the first entry of the next block, or
    /// at the end of the table. Fails where a block that the search needs
    /// cannot be read.
    pub fn create_and_seek_to_key(sst: Arc<Sst>, key: TimestampedKey) -> (r: Result<
        Self,
        LsmError,
    >)
        requires
            sst@.metas.len() > 0,
        ensures
            match r {
                Ok(it) => {
                    &&& it.wf()
                    &&& it.valid()
                    &&& it.table() == sst@
                    &&& 0 <= it.block_index() < sst@.metas.len()
                    &&& block_at(sst@, it.block_index()) == Some(it.block())
                    &&& sound(sst@) ==> it.pending() == stamped_all(
                        entries_from_key(table_entries(sst@), key.bytes()),
                    )
                },
                Err(e) => e == LsmError::IoError && exists|i: int|
                    0 <= i < sst@.metas.len() && block_at(sst@, i) is None,
            },
    {
        let (block_index, mut block_iterator) = match Self::place_at_key(&sst, key) {
            Ok(place) => place,
            Err(e) => {
                return Err(e);
            },
        };
        let current_kv = block_iterator.peek();
        Ok(Self { sst, block_index, block_iterator, current_kv, is_valid: true })
    }

    /// Moves the cursor as `create_and_seek_to_key` places it. Where a
    /// block cannot be read, the cursor keeps its block and entry.
    pub fn seek_to_key(&mut self, key: TimestampedKey) -> (r: Result<(), LsmError>)
        requires
            old(self).wf(),
            old(self).table().metas.len() > 0,
        ensures
            final(self).wf(),
            final(self).table() == old(self).table(),
            final(self).valid() == old(self).valid(),
            match r {
                Ok(()) => {
                    &&& 0 <= final(self).block_index() < final(self).table().metas.len()
                    &&& block_at(final(self).table(), final(self).block_index()) == Some(
                        final(self).block(),
                    )
                    &&& sound(final(self).table()) ==> stream_from(
                        final(self).table(),
                        final(self).block_index(),
                        final(self).block(),
                        final(self).entry_index(),
                    ) == stamped_all(
                        entries_from_key(table_entries(final(self).table()), key.bytes()),
                    )
                },
                Err(e) => e == LsmError::IoError
                    && final(self).block_index() == old(self).block_index()
                    && final(self).block() == old(self).block()
                    && final(self).entry_index() == old(self).entry_index(),
            },
    {
        let (block_index, block_iterator) = match Self::place_at_key(&self.sst, key) {
            Ok(place) => place,
            Err(e) => {
                return Err(e);
            },
        };
        self.block_index = block_index;
        self.block_iterator = block_iterator;
        self.current_kv = self.block_iterator.peek();
        Ok(())
    }
}

impl StorageIterator for SSTIterator {
    open spec fn inv(&self) -> bool {
        self.wf()
    }

    open spec fn pending(&self) -> Seq<Entry> {
        if self.valid() {
            stream_from(self.table(), self.block_index(), self.block(), self.entry_index())
        } else {
            Seq::empty()
        }
    }

    open spec fn ends_cleanly(&self) -> bool {
        self.valid() && stream_clean(
            self.table(),
            self.block_index(),
            self.block(),
            self.entry_index(),
        )
    }

    fn peek(&mut self) -> (r: Option<KeyValuePair>)
        ensures
            final(self).table() == old(self).table(),
            final(self).block_index() == old(self).block_index(),
            final(self).block() == old(self).block(),
            final(self).entry_index() == old(self).entry_index(),
            final(self).valid() == old(self).valid(),
            old(self).block_index() < old(self).table().metas.len() ==> view_opt(r) == stamped_opt(
                entry_at(old(self).block(), old(self).entry_index()),
            ),
    {
        proof {
            crate::block::lemma_entry_at(self.block(), self.entry_index());
        }
        match &self.current_kv {
            Some(kv) => Some(kv.clone()),
            None => None,
        }
    }

    fn is_valid(&self) -> (r: bool)
        ensures
            r == self.valid(),
    {
        proof {
            crate::block::lemma_entry_at(self.block(), self.entry_index());
        }
        self.is_valid
    }

    fn next(&mut self) -> (r: Option<KeyValuePair>)
        ensures
            final(self).table() == old(self).table(),
    {
        proof {
            crate::block::lemma_entry_at(self.block(), self.entry_index());
        }
        let n = self.sst.num_blocks();
        if !self.is_valid || self.block_index >= n {
            return None;
        }
        let res = match &self.current_kv {
            Some(kv) => kv.clone(),
            None => {
                return None;
            },
        };
        let within = match compare(
            res.key.key_ref().as_slice(),
            self.sst.meta_block(self.block_index).get_last_key().as_slice(),
        ) {
            Rank::Before => true,
            _ => false,
        };
        if within {
            self.block_iterator.next();
            self.current_kv = self.block_iterator.peek();
        } else {
            self.block_index += 1;
            if self.block_index >= n {
                self.current_kv = None;
                return Some(res);
            }
            match self.sst.load_block(self.block_index) {
                Err(_) => {
                    self.is_valid = false;
                },
                Ok(block) => {
                    self.block_iterator = BlockIterator::create_and_seek_to_first(block);
                    self.current_kv = self.block_iterator.peek();
                },
            }
        }
        Some(res)
    }
}

} // verus!
