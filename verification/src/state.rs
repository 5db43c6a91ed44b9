//! The state of a store: the memtable that takes writes, the frozen
//! memtables, and the sorted tables, with the operations on them.

pub mod model;
pub mod puts;
pub mod scan;
pub mod storage_state_options;

use crate::block::builder::{add_clamped, MAX_U16};
use crate::error::LsmError;
use crate::iterator::StorageIterator;
use crate::iterator::bounded_iterator::BoundedIterator;
use crate::iterator::merge_iterator::{merge_all, weight, MergeIterator};
use crate::iterator::merge_order::{
    lemma_merge_of_sorted, lemma_merge_two_sorted, lemma_merged_clean, lemma_stamped_sorted, sorted,
    sources_of, union_upto,
};
use crate::iterator::two_merge_iterator::{lemma_merge_two_clean, TwoMergeIterator};
use crate::lex::bytes_opt;
use crate::memory::memtable::{
    lemma_lists_range_unique, lists_range, sorted_entries, MemTable, MemTableView,
};
use crate::memory::memtable::iterator::MemTableIterator;
use crate::state::model::{
    find_in_frozen, find_in_tables, flushable, flushed_state, flushed_table, frozen_state,
    lemma_flushed_well_formed, lemma_frozen_well_formed, lemma_stored_flushed, lemma_stored_frozen,
    lemma_stored_written, lookup, opened_state, put_state, rotates, stored, well_formed,
    written_state, StateView,
};
use crate::state::scan::{
    memtable_streams, range_entries, scan_result, table_cursor, table_streams, table_streams_upto,
    ScanIterator,
};
use crate::state::storage_state_options::StorageStateOptions;
use crate::table::{lemma_sound_nonempty, sound, table_entries, Sst, SstView};
use crate::table::block_cache::{new_block_cache, BlockCache};
use crate::table::builder::SSTBuilder;
use crate::table::iterator::SSTIterator;
use crate::table::lookup::find_in_table;
use crate::utils::{range_overlap, share};
use std::collections::VecDeque;
use std::ops::Bound;
use std::sync::Arc;
use vstd::prelude::*;

verus! {

/// The views of a list of memtables.
pub open spec fn memtable_views(ms: Seq<MemTable>) -> Seq<MemTableView> {
    Seq::new(ms.len(), |i: int| ms[i]@)
}

/// The views of a list of tables.
pub open spec fn table_views(ts: Seq<Arc<Sst>>) -> Seq<SstView> {
    Seq::new(ts.len(), |i: int| ts[i]@)
}

/// The state of a store.
pub struct StorageState {
    current_memtable: MemTable,
    frozen_memtables: VecDeque<MemTable>,
    l0_sst_ids: VecDeque<usize>,
    ssts: VecDeque<Arc<Sst>>,
    block_cache: Arc<BlockCache>,
    sst_counter: usize,
    options: StorageStateOptions,
}

impl View for StorageState {
    type V = StateView;

    closed spec fn view(&self) -> StateView {
        StateView {
            current: self.current_memtable@,
            frozen: memtable_views(self.frozen_memtables@),
            tables: table_views(self.ssts@),
            next_id: self.sst_counter,
        }
    }
}

impl StorageState {
    /// The settings of the store.
    pub closed spec fn settings(&self) -> StorageStateOptions {
        self.options
    }

    /// The ids of the tables, newest first.
    pub closed spec fn table_ids(&self) -> Seq<usize> {
        self.l0_sst_ids@
    }

    /// The store's invariant: its state is well formed, and the list of
    /// table ids names the tables.
    pub closed spec fn wf(&self) -> bool {
        &&& well_formed(self@)
        &&& self.l0_sst_ids@.len() == self.ssts@.len()
        &&& forall|i: int| 0 <= i < self.ssts@.len()
            ==> self.l0_sst_ids@[i] == (#[trigger] self.ssts@[i])@.id
    }

    /// A store's state is well formed.
    pub proof fn lemma_wf(&self)
        requires
            self.wf(),
        ensures
            well_formed(self@),
            self.table_ids().len() == self@.tables.len(),
            forall|i: int| 0 <= i < self@.tables.len()
                ==> self.table_ids()[i] == (#[trigger] self@.tables[i]).id,
    {
    }

    /// A store with one empty memtable, with id zero, and no tables.
    pub fn open(options: StorageStateOptions) -> (r: Result<Self, LsmError>)
        ensures
            r matches Ok(s) && s.wf() && s.settings() == options && s@ == opened_state(),
    {
        let current_memtable = MemTable::new(0);
        let block_cache = Arc::new(new_block_cache(options.block_cache_size_bytes));
        let s = Self {
            current_memtable,
            frozen_memtables: VecDeque::new(),
            l0_sst_ids: VecDeque::new(),
            ssts: VecDeque::new(),
            block_cache,
            sst_counter: 1,
            options,
        };
        proof {
            assert(s@.frozen =~= Seq::<MemTableView>::empty());
            assert(s@.tables =~= Seq::<SstView>::empty());
        }
        Ok(s)
    }

    /// The next id, which is then given out.
    fn get_next_sst_id(&mut self) -> (id: usize)
        requires
            old(self).sst_counter < usize::MAX,
        ensures
            id == old(self).sst_counter,
            final(self).sst_counter == id + 1,
            final(self).current_memtable == old(self).current_memtable,
            final(self).frozen_memtables == old(self).frozen_memtables,
            final(self).l0_sst_ids == old(self).l0_sst_ids,
            final(self).ssts == old(self).ssts,
            final(self).options == old(self).options,
    {
        let id = self.sst_counter;
        self.sst_counter = id + 1;
        id
    }

    /// Freezes the current memtable, puts it in front of the frozen ones,
    /// and makes a new memtable with the next id the current one. Fails,
    /// and changes nothing, where no id is left to give out.
    pub fn freeze_memtable(&mut self) -> (r: Result<(), LsmError>)
        requires
            old(self).wf(),
        ensures
            final(self).wf(),
            final(self).settings() == old(self).settings(),
            r is Ok <==> old(self)@.next_id < usize::MAX,
            r is Ok ==> final(self)@ == frozen_state(old(self)@),
            r is Err ==> r->Err_0 == LsmError::SizeOverflow && final(self)@ == old(self)@,
    {
        if self.sst_counter == usize::MAX {
            return Err(LsmError::SizeOverflow);
        }
        let id = self.get_next_sst_id();
        let mut new_memtable = MemTable::new(id);
        let frozen = self.current_memtable.freeze();
        assert(frozen is Ok);
        std::mem::swap(&mut self.current_memtable, &mut new_memtable);
        self.frozen_memtables.push_front(new_memtable);
        proof {
            assert(self@.frozen =~= frozen_state(old(self)@).frozen);
            assert(self@.tables =~= old(self)@.tables);
            assert(self@ == frozen_state(old(self)@));
            lemma_frozen_well_formed(old(self)@);
            assert(self.ssts@ == old(self).ssts@);
        }
        Ok(())
    }

    /// Writes `value` under `key` to the current memtable. Where that
    /// memtable holds something and would exceed the size of the settings,
    /// it is frozen first and the write goes to a new one. Fails with
    /// `SizeOverflow`, and changes nothing, where the key or the value is
    /// longer than 65535 bytes, and where a new memtable is needed and no
    /// id is left.
    pub fn put(&mut self, key: &[u8], value: &[u8]) -> (r: Result<(), LsmError>)
        requires
            old(self).wf(),
        ensures
            final(self).wf(),
            final(self).settings() == old(self).settings(),
            r is Ok <==> key@.len() <= MAX_U16 && value@.len() <= MAX_U16 && !(rotates(
                old(self)@,
                old(self).settings().sst_max_size_bytes,
                key@.len(),
                value@.len(),
            ) && old(self)@.next_id == usize::MAX),
            r is Err ==> r->Err_0 == LsmError::SizeOverflow && final(self)@ == old(self)@,
            r is Ok ==> final(self)@ == put_state(
                old(self)@,
                old(self).settings().sst_max_size_bytes,
                key@,
                value@,
            ),
            r is Ok ==> stored(final(self)@, key@) == Some(value@),
            r is Ok ==> forall|other: Seq<u8>|
                other != key@ ==> #[trigger] stored(final(self)@, other) == stored(
                    old(self)@,
                    other,
                ),
    {
        if key.len() > MAX_U16 || value.len() > MAX_U16 {
            return Err(LsmError::SizeOverflow);
        }
        let current_memtable_size = self.current_memtable.get_size_bytes();
        if current_memtable_size > 0 && add_clamped(
            current_memtable_size,
            add_clamped(key.len(), value.len()),
        ) > self.options.sst_max_size_bytes {
            match self.freeze_memtable() {
                Err(e) => {
                    return Err(e);
                },
                Ok(()) => {},
            }
        }
        let ghost before = self@;
        let written = self.current_memtable.put(key, value);
        assert(written is Ok);
        proof {
            assert(self@ == written_state(before, key@, value@));
            assert forall|other: Seq<u8>| other != key@ implies #[trigger] stored(self@, other)
                == stored(old(self)@, other) by {
                lemma_stored_written(before, key@, value@, other);
                lemma_stored_frozen(old(self)@, other);
            }
        }
        written
    }

    /// Writes a tombstone under `key`. Fails with `KeyNotFound`, and
    /// changes nothing, where a reader sees nothing under the key; and
    /// where the write of the tombstone fails, as `put` does.
    pub fn delete(&mut self, key: &[u8]) -> (r: Result<(), LsmError>)
        requires
            old(self).wf(),
        ensures
            final(self).wf(),
            final(self).settings() == old(self).settings(),
            r == (if lookup(old(self)@, key@) is None {
                Err::<(), LsmError>(LsmError::KeyNotFound)
            } else if key@.len() > MAX_U16 || (rotates(
                old(self)@,
                old(self).settings().sst_max_size_bytes,
                key@.len(),
                0,
            ) && old(self)@.next_id == usize::MAX) {
                Err(LsmError::SizeOverflow)
            } else {
                Ok(())
            }),
            r is Err ==> final(self)@ == old(self)@,
            r is Ok ==> final(self)@ == written_state(
                if rotates(old(self)@, old(self).settings().sst_max_size_bytes, key@.len(), 0) {
                    frozen_state(old(self)@)
                } else {
                    old(self)@
                },
                key@,
                Seq::empty(),
            ),
            r is Ok ==> lookup(final(self)@, key@) is None,
    {
        match self.get(key) {
            Err(e) => Err(e),
            Ok(None) => Err(LsmError::KeyNotFound),
            Ok(Some(_)) => {
                let tombstone: Vec<u8> = Vec::new();
                assert(tombstone@.len() == 0);
                match self.put(key, tombstone.as_slice()) {
                    Ok(()) => Ok(()),
                    Err(e) => Err(e),
                }
            },
        }
    }

    /// The table of the oldest frozen memtable, as a flush builds it: the
    /// memtable's entries, in key order, in a table with the memtable's id.
    /// The store stays as it is. Nothing where no memtable is frozen; fails
    /// where the table cannot be built.
    #[verifier::rlimit(30)]
    pub fn build_oldest_table(&self) -> (r: Result<Option<Sst>, LsmError>)
        requires
            self.wf(),
        ensures
            self@.frozen.len() == 0 ==> r matches Ok(None),
            r matches Ok(None) ==> self@.frozen.len() == 0,
            r is Err <==> self@.frozen.len() > 0 && !flushable(
                self@.frozen.last().map,
                self.settings().block_max_size_bytes,
            ),
            r matches Err(e) ==> e == LsmError::SizeOverflow,
            r matches Ok(Some(sst)) ==> {
                &&& self@.frozen.len() > 0
                &&& sst@ == flushed_table(
                    self@.frozen.last().map,
                    self.settings().block_max_size_bytes,
                    self@.frozen.last().id,
                )
                &&& sst@.id == self@.frozen.last().id
                &&& sound(sst@)
                &&& table_entries(sst@) == sorted_entries(self@.frozen.last().map)
                &&& lists_range(
                    self@.frozen.last().map,
                    Bound::Unbounded,
                    Bound::Unbounded,
                    table_entries(sst@),
                )
            },
    {
        let n = self.frozen_memtables.len();
        if n == 0 {
            return Ok(None);
        }
        let ghost oldest = self@.frozen.last();
        assert(self.frozen_memtables@[n - 1]@ == oldest);
        let mut sst_builder: SSTBuilder = SSTBuilder::new(self.options.block_max_size_bytes);
        match self.frozen_memtables[n - 1].flush(&mut sst_builder) {
            Err(e) => {
                return Err(e);
            },
            Ok(()) => {},
        }
        let sst_id = self.frozen_memtables[n - 1].get_id();
        proof {
            assert(sst_builder.entries() =~= sorted_entries(oldest.map));
        }
        match sst_builder.build(sst_id, Some(share(&self.block_cache))) {
            Err(e) => Err(e),
            Ok(sst) => Ok(Some(sst)),
        }
    }

    /// The table that `trigger_flush` would put in front of the tables:
    /// that of the oldest frozen memtable where the frozen memtables have
    /// reached the number of the settings, else nothing. The store stays as
    /// it is, so that the table's file can be written before the flush.
    pub fn plan_flush(&self) -> (r: Result<Option<Sst>, LsmError>)
        requires
            self.wf(),
        ensures
            r is Err <==> self@.frozen.len() >= self.settings().num_memtables_limit
                && self@.frozen.len() > 0 && !flushable(
                self@.frozen.last().map,
                self.settings().block_max_size_bytes,
            ),
            r matches Err(e) ==> e == LsmError::SizeOverflow,
            r matches Ok(None) ==> self@.frozen.len() < self.settings().num_memtables_limit
                || self@.frozen.len() == 0,
            r matches Ok(Some(sst)) ==> {
                &&& self@.frozen.len() >= self.settings().num_memtables_limit
                &&& self@.frozen.len() > 0
                &&& sst@ == flushed_table(
                    self@.frozen.last().map,
                    self.settings().block_max_size_bytes,
                    self@.frozen.last().id,
                )
            },
    {
        if self.frozen_memtables.len() >= self.options.num_memtables_limit {
            self.build_oldest_table()
        } else {
            Ok(None)
        }
    }

    /// Turns the oldest frozen memtable into the newest table: its entries
    /// go, in key order, into a table with the memtable's id, the table is
    /// put in front of the tables, and the memtable is dropped. Gives the id
    /// of the new table; nothing where no memtable is frozen. Fails, and
    /// changes nothing, where the table cannot be built.
    #[verifier::rlimit(30)]
    pub fn flush_next_memtable_to_l0(&mut self) -> (r: Result<Option<usize>, LsmError>)
        requires
            old(self).wf(),
        ensures
            final(self).wf(),
            final(self).settings() == old(self).settings(),
            old(self)@.frozen.len() == 0 ==> r == Ok::<Option<usize>, LsmError>(None),
            r is Err <==> old(self)@.frozen.len() > 0 && !flushable(
                old(self)@.frozen.last().map,
                old(self).settings().block_max_size_bytes,
            ),
            r matches Ok(None) ==> old(self)@.frozen.len() == 0 && final(self)@ == old(self)@
                && final(self).table_ids() == old(self).table_ids(),
            r matches Err(e) ==> e == LsmError::SizeOverflow && final(self)@ == old(self)@
                && final(self).table_ids() == old(self).table_ids(),
            r matches Ok(Some(id)) ==> {
                &&& old(self)@.frozen.len() > 0
                &&& id == old(self)@.frozen.last().id
                &&& final(self)@.tables.len() == old(self)@.tables.len() + 1
                &&& final(self)@ == flushed_state(old(self)@, final(self)@.tables[0])
                &&& final(self)@.tables[0] == flushed_table(
                    old(self)@.frozen.last().map,
                    old(self).settings().block_max_size_bytes,
                    id,
                )
                &&& final(self)@.tables[0].id == id
                &&& table_entries(final(self)@.tables[0]) == sorted_entries(
                    old(self)@.frozen.last().map,
                )
                &&& lists_range(
                    old(self)@.frozen.last().map,
                    Bound::Unbounded,
                    Bound::Unbounded,
                    table_entries(final(self)@.tables[0]),
                )
                &&& final(self).table_ids() == seq![id] + old(self).table_ids()
            },
            r is Ok ==> forall|key: Seq<u8>|
                #[trigger] stored(final(self)@, key) == stored(old(self)@, key),
    {
        let ghost before = self@;
        let sst = match self.build_oldest_table() {
            Err(e) => {
                return Err(e);
            },
            Ok(None) => {
                return Ok(None);
            },
            Ok(Some(sst)) => sst,
        };
        let ghost table = sst@;
        let sst_id = sst.get_id();
        self.l0_sst_ids.push_front(sst_id);
        self.ssts.push_front(Arc::new(sst));
        self.frozen_memtables.pop_back();
        proof {
            let s = self@;
            assert(s.tables =~= seq![table] + before.tables);
            assert(s.frozen =~= before.frozen.drop_last());
            assert(s == flushed_state(before, table));
            lemma_flushed_well_formed(before, table);
            assert forall|i: int| 0 <= i < self.ssts@.len() implies self.l0_sst_ids@[i] == (
            #[trigger] self.ssts@[i])@.id by {
                if i > 0 {
                    assert(self.ssts@[i] == old(self).ssts@[i - 1]);
                }
            }
            assert(self.l0_sst_ids@ =~= seq![sst_id] + old(self).l0_sst_ids@);
            assert forall|key: Seq<u8>| #[trigger] stored(s, key) == stored(before, key) by {
                lemma_stored_flushed(before, table, key);
            }
        }
        Ok(Some(sst_id))
    }

    /// Freezes the current memtable and flushes every frozen memtable,
    /// oldest first. Stops at the first failure: it fails where no id is
    /// left for a new memtable, or one of the memtables cannot be flushed.
    #[verifier::rlimit(30)]
    pub fn flush_all_memtables(&mut self) -> (r: Result<(), LsmError>)
        requires
            old(self).wf(),
        ensures
            final(self).wf(),
            final(self).settings() == old(self).settings(),
            r is Ok <==> old(self)@.next_id < usize::MAX && flushable(
                old(self)@.current.map,
                old(self).settings().block_max_size_bytes,
            ) && forall|i: int|
                0 <= i < old(self)@.frozen.len() ==> flushable(
                    (#[trigger] old(self)@.frozen[i]).map,
                    old(self).settings().block_max_size_bytes,
                ),
            r is Ok ==> final(self)@.frozen.len() == 0 && final(self)@.tables.len() == old(
                self,
            )@.tables.len() + old(self)@.frozen.len() + 1 && final(self)@.current
                == frozen_state(old(self)@).current && final(self)@.next_id == old(self)@.next_id
                + 1,
            r is Err ==> r->Err_0 == LsmError::SizeOverflow,
            forall|key: Seq<u8>| #[trigger] stored(final(self)@, key) == stored(old(self)@, key),
    {
        proof {
            assert forall|key: Seq<u8>| #[trigger] stored(frozen_state(self@), key) == stored(
                self@,
                key,
            ) by {
                lemma_stored_frozen(self@, key);
            }
        }
        let ghost target = self.settings().block_max_size_bytes;
        match self.freeze_memtable() {
            Err(e) => {
                return Err(e);
            },
            Ok(()) => {},
        }
        let ghost start = self@.frozen;
        let ghost fresh = self@.current;
        let ghost next = self@.next_id;
        proof {
            assert(start[0].map == old(self)@.current.map);
            assert forall|i: int| 0 <= i < old(self)@.frozen.len() implies start[i + 1] == old(
                self,
            )@.frozen[i] by {}
            assert(self@.frozen =~= start.subrange(0, start.len() as int));
        }
        loop
            invariant
                self.wf(),
                self.settings() == old(self).settings(),
                target == self.settings().block_max_size_bytes,
                self@.current == fresh,
                self@.next_id == next,
                self@.tables.len() + self@.frozen.len() == old(self)@.tables.len() + old(
                    self,
                )@.frozen.len() + 1,
                self@.frozen.len() <= start.len(),
                start.len() == old(self)@.frozen.len() + 1,
                start[0].map == old(self)@.current.map,
                forall|i: int|
                    0 <= i < old(self)@.frozen.len() ==> start[i + 1] == #[trigger] old(
                        self,
                    )@.frozen[i],
                self@.frozen == start.subrange(0, self@.frozen.len() as int),
                forall|j: int|
                    self@.frozen.len() <= j < start.len() ==> flushable(
                        (#[trigger] start[j]).map,
                        target,
                    ),
                forall|key: Seq<u8>| #[trigger] stored(self@, key) == stored(old(self)@, key),
            ensures
                self@.frozen.len() == 0,
            decreases self@.frozen.len(),
        {
            let num_memtables = self.frozen_memtables.len();
            if num_memtables == 0 {
                break;
            }
            let ghost before = self@.frozen;
            match self.flush_next_memtable_to_l0() {
                Err(e) => {
                    proof {
                        assert(before.last() == start[before.len() - 1]);
                        if before.len() - 1 > 0 {
                            assert(start[before.len() - 1] == old(self)@.frozen[before.len() - 2]);
                        }
                    }
                    return Err(e);
                },
                Ok(_) => {
                    proof {
                        assert(before.last() == start[before.len() - 1]);
                        assert(self@.frozen =~= start.subrange(0, self@.frozen.len() as int));
                    }
                },
            }
        }
        proof {
            assert(flushable(start[0].map, target));
            assert forall|i: int| 0 <= i < old(self)@.frozen.len() implies flushable(
                (#[trigger] old(self)@.frozen[i]).map,
                target,
            ) by {
                assert(start[i + 1] == old(self)@.frozen[i]);
            }
        }
        Ok(())
    }

    /// Flushes the oldest frozen memtable where the frozen memtables have
    /// reached the number of the settings.
    pub fn trigger_flush(&mut self) -> (r: Result<Option<usize>, LsmError>)
        requires
            old(self).wf(),
        ensures
            final(self).wf(),
            final(self).settings() == old(self).settings(),
            old(self)@.frozen.len() < old(self).settings().num_memtables_limit ==> r == Ok::<
                Option<usize>,
                LsmError,
            >(None) && final(self)@ == old(self)@,
            r is Err <==> old(self)@.frozen.len() >= old(self).settings().num_memtables_limit
                && old(self)@.frozen.len() > 0 && !flushable(
                old(self)@.frozen.last().map,
                old(self).settings().block_max_size_bytes,
            ),
            r matches Ok(None) ==> final(self)@ == old(self)@,
            r matches Err(e) ==> e == LsmError::SizeOverflow && final(self)@ == old(self)@,
            r matches Ok(Some(id)) ==> {
                &&& old(self)@.frozen.len() >= old(self).settings().num_memtables_limit
                &&& old(self)@.frozen.len() > 0
                &&& id == old(self)@.frozen.last().id
                &&& final(self)@.tables.len() == old(self)@.tables.len() + 1
                &&& final(self)@ == flushed_state(old(self)@, final(self)@.tables[0])
                &&& final(self)@.tables[0] == flushed_table(
                    old(self)@.frozen.last().map,
                    old(self).settings().block_max_size_bytes,
                    id,
                )
                &&& table_entries(final(self)@.tables[0]) == sorted_entries(
                    old(self)@.frozen.last().map,
                )
                &&& lists_range(
                    old(self)@.frozen.last().map,
                    Bound::Unbounded,
                    Bound::Unbounded,
                    table_entries(final(self)@.tables[0]),
                )
            },
            forall|key: Seq<u8>| #[trigger] stored(final(self)@, key) == stored(old(self)@, key),
    {
        let should_trigger_flush = self.frozen_memtables.len() >= self.options.num_memtables_limit;
        if should_trigger_flush {
            self.flush_next_memtable_to_l0()
        } else {
            Ok(None)
        }
    }

    /// The cursors of a scan over the memtables: the current one first,
    /// then the frozen ones.
    fn memtable_cursors(&self, lower: Bound<&[u8]>, upper: Bound<&[u8]>) -> (r: Vec<
        MemTableIterator,
    >)
        ensures
            r@.len() == self@.frozen.len() + 1,
            forall|i: int|
                0 <= i < r@.len() ==> (#[trigger] r@[i]).inv() && r@[i].ends_cleanly()
                    && r@[i].pending() == memtable_streams(self@, lower, upper)[i],
            forall|i: int|
                0 <= i < self@.frozen.len() + 1 ==> sorted(
                    #[trigger] memtable_streams(self@, lower, upper)[i],
                ),
    {
        let ghost streams = memtable_streams(self@, lower, upper);
        let mut cursors: Vec<MemTableIterator> = Vec::new();
        let first = self.current_memtable.scan(lower, upper);
        proof {
            lemma_lists_range_unique(
                self@.current.map,
                lower,
                upper,
                first.remaining(),
                range_entries(self@.current.map, lower, upper),
            );
            lemma_stamped_sorted(first.remaining());
        }
        cursors.push(first);
        let n = self.frozen_memtables.len();
        let mut i: usize = 0;
        while i < n
            invariant
                i <= n,
                n == self.frozen_memtables@.len(),
                n == self@.frozen.len(),
                streams == memtable_streams(self@, lower, upper),
                cursors@.len() == i + 1,
                forall|j: int| 0 <= j < i + 1 ==> sorted(#[trigger] streams[j]),
                forall|j: int|
                    0 <= j < cursors@.len() ==> (#[trigger] cursors@[j]).inv()
                        && cursors@[j].ends_cleanly() && cursors@[j].pending() == streams[j],
            decreases n - i,
        {
            let cursor = self.frozen_memtables[i].scan(lower, upper);
            proof {
                assert(self.frozen_memtables@[i as int]@ == self@.frozen[i as int]);
                lemma_lists_range_unique(
                    self@.frozen[i as int].map,
                    lower,
                    upper,
                    cursor.remaining(),
                    range_entries(self@.frozen[i as int].map, lower, upper),
                );
                lemma_stamped_sorted(cursor.remaining());
            }
            cursors.push(cursor);
            i += 1;
        }
        cursors
    }

    /// The cursors of a scan over the tables that the scan reads, newest
    /// first.
    fn table_cursors(&self, lower: Bound<&[u8]>, upper: Bound<&[u8]>) -> (r: Result<
        Vec<BoundedIterator<SSTIterator>>,
        LsmError,
    >)
        requires
            self.wf(),
        ensures
            r matches Ok(cursors) && cursors@.len() == table_streams(
                self@.tables,
                lower,
                upper,
            ).len() && forall|i: int|
                0 <= i < cursors@.len() ==> (#[trigger] cursors@[i]).inv()
                    && cursors@[i].ends_cleanly() && cursors@[i].pending() == table_streams(
                    self@.tables,
                    lower,
                    upper,
                )[i],
            forall|i: int|
                0 <= i < table_streams(self@.tables, lower, upper).len() ==> sorted(
                    #[trigger] table_streams(self@.tables, lower, upper)[i],
                ),
    {
        let ghost tables = self@.tables;
        let mut cursors: Vec<BoundedIterator<SSTIterator>> = Vec::new();
        let n = self.ssts.len();
        proof {
            assert forall|j: int| 0 <= j < n implies sound((#[trigger] self.ssts@[j])@) by {
                assert(self@.tables[j] == self.ssts@[j]@);
            }
        }
        let mut i: usize = 0;
        while i < n
            invariant
                i <= n,
                n == self.ssts@.len(),
                tables == self@.tables,
                n == tables.len(),
                forall|j: int| 0 <= j < n ==> sound((#[trigger] self.ssts@[j])@),
                cursors@.len() == table_streams_upto(tables, i as int, lower, upper).len(),
                forall|j: int|
                    0 <= j < table_streams_upto(tables, i as int, lower, upper).len() ==> sorted(
                        #[trigger] table_streams_upto(tables, i as int, lower, upper)[j],
                    ),
                forall|j: int|
                    0 <= j < cursors@.len() ==> (#[trigger] cursors@[j]).inv()
                        && cursors@[j].ends_cleanly() && cursors@[j].pending()
                        == table_streams_upto(tables, i as int, lower, upper)[j],
            decreases n - i,
        {
            let sst = &self.ssts[i];
            assert(sst@ == tables[i as int]);
            proof {
                lemma_sound_nonempty(sst@);
            }
            if range_overlap(lower, upper, sst.get_first_key(), sst.get_last_key()) {
                let cursor = match table_cursor(sst, lower, upper) {
                    Ok(c) => c,
                    Err(e) => {
                        return Err(e);
                    },
                };
                cursors.push(cursor);
            }
            i += 1;
        }
        Ok(cursors)
    }

    /// A stream over what is stored within the bounds, in key order: the
    /// merge of the memtables merged with the merge of the tables whose key
    /// range overlaps the bounds. Tombstones are part of the stream.
    pub fn scan(&self, lower: Bound<&[u8]>, upper: Bound<&[u8]>) -> (r: Result<
        ScanIterator,
        LsmError,
    >)
        requires
            self.wf(),
        ensures
            r matches Ok(it) && it.inv() && it.ends_cleanly() && it.pending() == scan_result(
                self@,
                lower,
                upper,
            ),
            sorted(scan_result(self@, lower, upper)),
            scan_result(self@, lower, upper).to_multiset() == union_upto(
                memtable_streams(self@, lower, upper),
                memtable_streams(self@, lower, upper).len() as int,
            ).add(
                union_upto(
                    table_streams(self@.tables, lower, upper),
                    table_streams(self@.tables, lower, upper).len() as int,
                ),
            ),
    {
        let memtable_iterators = self.memtable_cursors(lower, upper);
        let ghost mem_streams = memtable_streams(self@, lower, upper);
        let memtable_merge_iterator = MergeIterator::new(memtable_iterators);
        proof {
            assert(memtable_merge_iterator.valid());
            assert(memtable_merge_iterator.sources() =~= sources_of(mem_streams));
            lemma_merged_clean(sources_of(mem_streams), weight(sources_of(mem_streams)));
        }
        let l0_sst_iterators = match self.table_cursors(lower, upper) {
            Ok(c) => c,
            Err(e) => {
                return Err(e);
            },
        };
        let ghost sst_streams = table_streams(self@.tables, lower, upper);
        let l0_sst_merge_iterator = MergeIterator::new(l0_sst_iterators);
        proof {
            assert(l0_sst_merge_iterator.valid());
            assert(l0_sst_merge_iterator.sources() =~= sources_of(sst_streams));
            lemma_merged_clean(sources_of(sst_streams), weight(sources_of(sst_streams)));
        }
        let two_merge_iterator = TwoMergeIterator::new(
            memtable_merge_iterator,
            l0_sst_merge_iterator,
        );
        proof {
            lemma_merge_two_clean(
                merge_all(sources_of(mem_streams)),
                merge_all(sources_of(sst_streams)),
            );
            lemma_merge_of_sorted(mem_streams);
            lemma_merge_of_sorted(sst_streams);
            lemma_merge_two_sorted(
                merge_all(sources_of(mem_streams)),
                merge_all(sources_of(sst_streams)),
            );
        }
        Ok(two_merge_iterator)
    }

    /// The name, in ASCII, of the file of the table with id `sst_id`. The
    /// directory in which the file stands is that of the settings.
    pub fn get_sst_path(&self, sst_id: usize) -> (r: Vec<u8>)
        ensures
            r@ == crate::utils::sst_file_name_of(sst_id as nat),
    {
        crate::utils::sst_file_name(sst_id)
    }

    /// The current memtable.
    pub fn current_memtable(&self) -> (r: &MemTable)
        ensures
            r@ == self@.current,
    {
        &self.current_memtable
    }

    /// The frozen memtables, newest first.
    pub fn frozen_memtables(&self) -> (r: &VecDeque<MemTable>)
        ensures
            memtable_views(r@) == self@.frozen,
    {
        &self.frozen_memtables
    }

    /// The ids of the tables, newest first.
    pub fn l0_sst_ids(&self) -> (r: &VecDeque<usize>)
        ensures
            r@ == self.table_ids(),
    {
        &self.l0_sst_ids
    }

    /// The tables, newest first.
    pub fn ssts(&self) -> (r: &VecDeque<Arc<Sst>>)
        ensures
            table_views(r@) == self@.tables,
    {
        &self.ssts
    }

    /// The settings of the store.
    pub fn options(&self) -> (r: &StorageStateOptions)
        ensures
            *r == self.settings(),
    {
        &self.options
    }

    /// What a reader sees under `key`: the value in the current memtable,
    /// else in the newest frozen memtable that has the key, else in the
    /// newest table that has it; nothing where that value is a tombstone.
    #[verifier::rlimit(30)]
    pub fn get(&self, key: &[u8]) -> (r: Result<Option<Vec<u8>>, LsmError>)
        requires
            self.wf(),
        ensures
            r matches Ok(o) && bytes_opt(o) == lookup(self@, key@),
    {
        let mut res = self.current_memtable.get(key);
        if res.is_none() {
            let n = self.frozen_memtables.len();
            let mut i: usize = 0;
            while i < n
                invariant_except_break
                    res is None,
                invariant
                    i <= n,
                    n == self.frozen_memtables@.len(),
                    find_in_frozen(self@.frozen, 0, key@) == find_in_frozen(
                        self@.frozen,
                        i as int,
                        key@,
                    ),
                ensures
                    bytes_opt(res) == find_in_frozen(self@.frozen, 0, key@),
                decreases n - i,
            {
                res = self.frozen_memtables[i].get(key);
                if res.is_some() {
                    break;
                }
                i += 1;
            }
        }
        match res {
            Some(val) => {
                if val.len() == 0 {
                    return Ok(None);
                }
                return Ok(Some(val));
            },
            None => {},
        }
        let n = self.ssts.len();
        proof {
            assert forall|j: int| 0 <= j < n implies sound((#[trigger] self.ssts@[j])@) by {
                assert(self@.tables[j] == self.ssts@[j]@);
            }
        }
        let mut i: usize = 0;
        while i < n
            invariant
                i <= n,
                n == self.ssts@.len(),
                forall|j: int| 0 <= j < n ==> sound((#[trigger] self.ssts@[j])@),
                !self@.current.map.contains_key(key@),
                find_in_frozen(self@.frozen, 0, key@) is None,
                find_in_tables(self@.tables, 0, key@) == find_in_tables(
                    self@.tables,
                    i as int,
                    key@,
                ),
            decreases n - i,
        {
            assert(self.ssts@[i as int]@ == self@.tables[i as int]);
            match find_in_table(&self.ssts[i], key) {
                Err(e) => {
                    return Err(e);
                },
                Ok(Some(value)) => {
                    if value.len() == 0 {
                        return Ok(None);
                    }
                    return Ok(Some(value));
                },
                Ok(None) => {},
            }
            i += 1;
        }
        Ok(None)
    }
}

} // verus!
