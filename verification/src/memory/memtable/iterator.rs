use crate::block::RawEntry;
use crate::block::iterator::stamped;
use crate::iterator::StorageIterator;
use crate::kv::kv_pair::{view_opt, Entry, KeyValuePair};
use crate::kv::timestamped_key::TimestampedKey;
use crate::lex::copy_bytes;
use crate::memory::memtable::{lists_range, raw_entries, MemTable};
use std::ops::Bound;
use vstd::prelude::*;

verus! {

/// A cursor over the entries that a memtable held, within two bounds, when
/// the cursor was made.
pub struct MemTableIterator {
    items: Vec<(Vec<u8>, Vec<u8>)>,
    position: usize,
    current_kv: Option<KeyValuePair>,
}

/// A list of keys and values as entries with timestamp zero.
pub open spec fn stamped_all(s: Seq<RawEntry>) -> Seq<Entry> {
    Seq::new(s.len(), |i: int| stamped(s[i]))
}

impl MemTableIterator {
    /// The keys and values that the cursor has yet to yield.
    pub closed spec fn remaining(&self) -> Seq<RawEntry> {
        raw_entries(self.items@).subrange(self.position as int, self.items@.len() as int)
    }

    /// The cursor's invariant: its position is within its entries or at
    /// their end, and the entry it remembers is the one at its position.
    pub closed spec fn wf(&self) -> bool {
        &&& self.position <= self.items@.len()
        &&& view_opt(self.current_kv) == (if self.position < self.items@.len() {
            Some(stamped(raw_entries(self.items@)[self.position as int]))
        } else {
            None
        })
    }

    /// A cursor over the entries of `memtable` whose keys lie within the
    /// bounds.
    pub fn new(memtable: &MemTable, lower: Bound<&[u8]>, upper: Bound<&[u8]>) -> (it: Self)
        ensures
            it.wf(),
            lists_range(memtable@.map, lower, upper, it.remaining()),
    {
        let items = memtable.range(lower, upper);
        let mut new = Self { items, position: 0, current_kv: None };
        new.set_current_kv();
        assert(new.remaining() =~= raw_entries(new.items@));
        new
    }

    /// Remembers the entry at the cursor's position.
    fn set_current_kv(&mut self)
        requires
            old(self).position <= old(self).items@.len(),
        ensures
            final(self).wf(),
            final(self).items == old(self).items,
            final(self).position == old(self).position,
    {
        if self.position < self.items.len() {
            self.current_kv = Some(
                KeyValuePair {
                    key: TimestampedKey::new(copy_bytes(self.items[self.position].0.as_slice())),
                    value: copy_bytes(self.items[self.position].1.as_slice()),
                },
            );
        } else {
            self.current_kv = None;
        }
    }
}

impl StorageIterator for MemTableIterator {
    open spec fn inv(&self) -> bool {
        self.wf()
    }

    open spec fn pending(&self) -> Seq<Entry> {
        stamped_all(self.remaining())
    }

    open spec fn ends_cleanly(&self) -> bool {
        true
    }

    fn peek(&mut self) -> (r: Option<KeyValuePair>)
        ensures
            final(self).remaining() == old(self).remaining(),
    {
        match &self.current_kv {
            Some(kv) => Some(kv.clone()),
            None => None,
        }
    }

    fn is_valid(&self) -> (r: bool) {
        true
    }

    fn next(&mut self) -> (r: Option<KeyValuePair>) {
        let res = match &self.current_kv {
            Some(kv) => kv.clone(),
            None => {
                return None;
            },
        };
        let n = self.items.len();
        assert(self.position < n);
        self.position += 1;
        self.set_current_kv();
        assert(self.remaining() =~= old(self).remaining().drop_first());
        assert(stamped_all(self.remaining()) =~= stamped_all(old(self).remaining()).drop_first());
        Some(res)
    }
}

} // verus!
