//! The state of a store as mathematics: what it holds, what a reader sees,
//! and how writes, freezes and flushes change it.

use crate::block::builder::clamp_usize;
use crate::memory::memtable::{lists_range, no_entries, sorted_entries, MemTableView};
use crate::table::{sound, table_entries, SstView};
use crate::table::builder::{added_all, buildable_in, built_table, new_builder};
use crate::table::lookup::{find_in, holds_key};
use std::ops::Bound;
use vstd::prelude::*;

verus! {

/// What a store holds: the current memtable, the frozen memtables and the
/// tables, each list with the newest first, and the next id to give out.
pub struct StateView {
    pub current: MemTableView,
    pub frozen: Seq<MemTableView>,
    pub tables: Seq<SstView>,
    pub next_id: usize,
}

/// The state of a store that was just opened.
pub open spec fn opened_state() -> StateView {
    StateView {
        current: MemTableView { id: 0, map: no_entries(), size_bytes: 0, mutable: true },
        frozen: Seq::empty(),
        tables: Seq::empty(),
        next_id: 1,
    }
}

/// The value under `key` in the first of the memtables, from index `from`
/// of the frozen ones, that has the key.
pub open spec fn find_in_frozen(frozen: Seq<MemTableView>, from: int, key: Seq<u8>) -> Option<
    Seq<u8>,
>
    decreases frozen.len() - from,
{
    if from < 0 || from >= frozen.len() {
        None
    } else if frozen[from].map.contains_key(key) {
        Some(frozen[from].map[key])
    } else {
        find_in_frozen(frozen, from + 1, key)
    }
}

/// The value under `key` in the first of the tables, from index `from`,
/// that has the key.
pub open spec fn find_in_tables(tables: Seq<SstView>, from: int, key: Seq<u8>) -> Option<Seq<u8>>
    decreases tables.len() - from,
{
    if from < 0 || from >= tables.len() {
        None
    } else {
        match find_in(table_entries(tables[from]), key) {
            Some(v) => Some(v),
            None => find_in_tables(tables, from + 1, key),
        }
    }
}

/// What is stored under `key`: the value in the current memtable, else in
/// the newest frozen memtable that has the key, else in the newest table
/// that has it. The value may be a tombstone.
pub open spec fn stored(s: StateView, key: Seq<u8>) -> Option<Seq<u8>> {
    if s.current.map.contains_key(key) {
        Some(s.current.map[key])
    } else {
        match find_in_frozen(s.frozen, 0, key) {
            Some(v) => Some(v),
            None => find_in_tables(s.tables, 0, key),
        }
    }
}

/// What a reader sees under `key`: the stored value, unless it is a
/// tombstone.
pub open spec fn lookup(s: StateView, key: Seq<u8>) -> Option<Seq<u8>> {
    match stored(s, key) {
        Some(v) => if v.len() == 0 {
            None
        } else {
            Some(v)
        },
        None => None,
    }
}

/// Whether a write of `key_len` and `value_len` bytes freezes the current
/// memtable first: the memtable holds something, and with the write would
/// exceed the size that the settings give.
pub open spec fn rotates(s: StateView, max_size: usize, key_len: nat, value_len: nat) -> bool {
    s.current.size_bytes > 0 && clamp_usize(s.current.size_bytes + key_len + value_len) > max_size
}

/// The state after the current memtable is frozen and a new one takes its
/// place.
pub open spec fn frozen_state(s: StateView) -> StateView {
    StateView {
        current: MemTableView { id: s.next_id, map: no_entries(), size_bytes: 0, mutable: true },
        frozen: seq![MemTableView { mutable: false, ..s.current }] + s.frozen,
        tables: s.tables,
        next_id: (s.next_id + 1) as usize,
    }
}

/// The state after `value` is written under `key` to the current memtable.
pub open spec fn written_state(s: StateView, key: Seq<u8>, value: Seq<u8>) -> StateView {
    StateView {
        current: MemTableView {
            map: s.current.map.insert(key, value),
            size_bytes: clamp_usize(s.current.size_bytes + key.len() + value.len()),
            ..s.current
        },
        ..s
    }
}

/// The state after the oldest frozen memtable has become the newest table
/// `table`.
pub open spec fn flushed_state(s: StateView, table: SstView) -> StateView {
    StateView { frozen: s.frozen.drop_last(), tables: seq![table] + s.tables, ..s }
}

/// The search among the frozen memtables of a list with one more memtable
/// in front goes on behind it as in the list.
pub proof fn lemma_find_in_frozen_shift(
    first: MemTableView,
    frozen: Seq<MemTableView>,
    from: int,
    key: Seq<u8>,
)
    requires
        0 <= from <= frozen.len(),
    ensures
        find_in_frozen(seq![first] + frozen, from + 1, key) == find_in_frozen(frozen, from, key),
    decreases frozen.len() - from,
{
    let longer = seq![first] + frozen;
    if from < frozen.len() {
        assert(longer[from + 1] == frozen[from]);
        lemma_find_in_frozen_shift(first, frozen, from + 1, key);
    }
}

/// The search among tables of a list with one more table in front goes on
/// behind it as in the list.
pub proof fn lemma_find_in_tables_shift(
    first: SstView,
    tables: Seq<SstView>,
    from: int,
    key: Seq<u8>,
)
    requires
        0 <= from <= tables.len(),
    ensures
        find_in_tables(seq![first] + tables, from + 1, key) == find_in_tables(tables, from, key),
    decreases tables.len() - from,
{
    let longer = seq![first] + tables;
    if from < tables.len() {
        assert(longer[from + 1] == tables[from]);
        lemma_find_in_tables_shift(first, tables, from + 1, key);
    }
}

/// The search among the frozen memtables without the last: what the search
/// among all of them finds, unless only the last has the key.
pub proof fn lemma_find_in_frozen_drop_last(frozen: Seq<MemTableView>, from: int, key: Seq<u8>)
    requires
        frozen.len() > 0,
        0 <= from <= frozen.len() - 1,
    ensures
        find_in_frozen(frozen, from, key) == (match find_in_frozen(
            frozen.drop_last(),
            from,
            key,
        ) {
            Some(v) => Some(v),
            None => if frozen.last().map.contains_key(key) {
                Some(frozen.last().map[key])
            } else {
                None
            },
        }),
    decreases frozen.len() - from,
{
    let shorter = frozen.drop_last();
    if from < frozen.len() - 1 {
        assert(shorter[from] == frozen[from]);
        lemma_find_in_frozen_drop_last(frozen, from + 1, key);
    } else {
        assert(find_in_frozen(frozen, from + 1, key) is None);
    }
}

/// Freezing the current memtable changes nothing that is stored.
pub proof fn lemma_stored_frozen(s: StateView, key: Seq<u8>)
    ensures
        stored(frozen_state(s), key) == stored(s, key),
{
    let first = MemTableView { mutable: false, ..s.current };
    lemma_find_in_frozen_shift(first, s.frozen, 0, key);
}

/// A write is stored under its key and changes nothing that is stored
/// under another.
pub proof fn lemma_stored_written(s: StateView, key: Seq<u8>, value: Seq<u8>, other: Seq<u8>)
    ensures
        stored(written_state(s, key, value), key) == Some(value),
        other != key ==> stored(written_state(s, key, value), other) == stored(s, other),
{
}

/// The state after `value` is put under `key`: the current memtable is
/// frozen first where the write would make it exceed `max_size`.
pub open spec fn put_state(s: StateView, max_size: usize, key: Seq<u8>, value: Seq<u8>)
    -> StateView {
    written_state(
        if rotates(s, max_size, key.len(), value.len()) {
            frozen_state(s)
        } else {
            s
        },
        key,
        value,
    )
}

/// One step in the life of a store: a put, a freeze of the current
/// memtable, or a flush of the oldest frozen memtable into `table`.
pub enum Step {
    Put { key: Seq<u8>, value: Seq<u8> },
    Freeze,
    Flush { table: SstView },
}

/// The state after a step.
pub open spec fn step_state(s: StateView, max_size: usize, step: Step) -> StateView {
    match step {
        Step::Put { key, value } => put_state(s, max_size, key, value),
        Step::Freeze => frozen_state(s),
        Step::Flush { table } => flushed_state(s, table),
    }
}

/// Whether a step is one that the store takes: a flush needs a frozen
/// memtable, and its table holds, in key order, what the oldest frozen
/// memtable holds.
pub open spec fn step_taken(s: StateView, step: Step) -> bool {
    match step {
        Step::Flush { table } => s.frozen.len() > 0 && lists_range(
            s.frozen.last().map,
            Bound::Unbounded,
            Bound::Unbounded,
            table_entries(table),
        ),
        _ => true,
    }
}

/// The state after the first `n` of a list of steps.
pub open spec fn after_steps(s: StateView, max_size: usize, steps: Seq<Step>, n: int) -> StateView
    decreases n,
{
    if n <= 0 {
        s
    } else {
        step_state(after_steps(s, max_size, steps, n - 1), max_size, steps[n - 1])
    }
}

/// Whether each of the first `n` steps is one that the store takes in the
/// state that the steps before it lead to.
pub open spec fn steps_taken(s: StateView, max_size: usize, steps: Seq<Step>, n: int) -> bool {
    forall|j: int|
        0 <= j < n ==> step_taken(after_steps(s, max_size, steps, j), #[trigger] steps[j])
}

/// Whether a step puts something under `key`.
pub open spec fn puts_key(step: Step, key: Seq<u8>) -> bool {
    step matches Step::Put { key: k, .. } && k == key
}

/// A step changes nothing that is stored under a key that it does not put.
pub proof fn lemma_stored_step(s: StateView, max_size: usize, step: Step, key: Seq<u8>)
    requires
        step_taken(s, step),
        !puts_key(step, key),
    ensures
        stored(step_state(s, max_size, step), key) == stored(s, key),
{
    match step {
        Step::Put { key: k, value } => {
            let base = if rotates(s, max_size, k.len(), value.len()) {
                frozen_state(s)
            } else {
                s
            };
            lemma_stored_written(base, k, value, key);
            lemma_stored_frozen(s, key);
        },
        Step::Freeze => {
            lemma_stored_frozen(s, key);
        },
        Step::Flush { table } => {
            lemma_stored_flushed(s, table, key);
        },
    }
}

/// After any puts, freezes and flushes, what is stored under a key is the
/// value of the last put under that key: a reader sees the most recently
/// put value, wherever the entry now stands.
pub proof fn lemma_get_after_steps(
    s: StateView,
    max_size: usize,
    steps: Seq<Step>,
    i: int,
    n: int,
)
    requires
        0 <= i < n <= steps.len(),
        steps_taken(s, max_size, steps, n),
        steps[i] is Put,
        forall|j: int| i < j < n ==> !puts_key(#[trigger] steps[j], steps[i]->key),
    ensures
        stored(after_steps(s, max_size, steps, n), steps[i]->key) == Some(steps[i]->value),
        lookup(after_steps(s, max_size, steps, n), steps[i]->key) == (if steps[i]->value.len()
            == 0 {
            None
        } else {
            Some(steps[i]->value)
        }),
    decreases n,
{
    let before = after_steps(s, max_size, steps, n - 1);
    let key = steps[i]->key;
    assert(step_taken(before, steps[n - 1]));
    if i < n - 1 {
        lemma_get_after_steps(s, max_size, steps, i, n - 1);
        assert(!puts_key(steps[n - 1], key));
        lemma_stored_step(before, max_size, steps[n - 1], key);
    } else {
        let value = steps[i]->value;
        let base = if rotates(before, max_size, key.len(), value.len()) {
            frozen_state(before)
        } else {
            before
        };
        lemma_stored_written(base, key, value, key);
    }
}

/// After any puts, freezes and flushes, what is stored under a key that
/// none of them put is what was stored before: nothing, in a store that was
/// opened.
pub proof fn lemma_get_unwritten(
    s: StateView,
    max_size: usize,
    steps: Seq<Step>,
    n: int,
    key: Seq<u8>,
)
    requires
        0 <= n <= steps.len(),
        steps_taken(s, max_size, steps, n),
        forall|j: int| 0 <= j < n ==> !puts_key(#[trigger] steps[j], key),
    ensures
        stored(after_steps(s, max_size, steps, n), key) == stored(s, key),
        stored(opened_state(), key) is None,
    decreases n,
{
    if n > 0 {
        lemma_get_unwritten(s, max_size, steps, n - 1, key);
        assert(step_taken(after_steps(s, max_size, steps, n - 1), steps[n - 1]));
        lemma_stored_step(after_steps(s, max_size, steps, n - 1), max_size, steps[n - 1], key);
    }
}

/// A flush changes nothing that is stored: the table that takes the place
/// of the oldest frozen memtable holds what that memtable held.
pub proof fn lemma_stored_flushed(s: StateView, table: SstView, key: Seq<u8>)
    requires
        s.frozen.len() > 0,
        lists_range(s.frozen.last().map, Bound::Unbounded, Bound::Unbounded, table_entries(table)),
    ensures
        stored(flushed_state(s, table), key) == stored(s, key),
{
    let entries = table_entries(table);
    let map = s.frozen.last().map;
    lemma_find_in_frozen_drop_last(s.frozen, 0, key);
    lemma_find_in_tables_shift(table, s.tables, 0, key);
    if map.contains_key(key) {
        let j = choose|j: int| 0 <= j < entries.len() && (#[trigger] entries[j]).0 == key;
        assert(holds_key(entries, key));
        let c = choose|c: int| 0 <= c < entries.len() && (#[trigger] entries[c]).0 == key;
        assert(map[entries[c].0] == entries[c].1);
    } else {
        if holds_key(entries, key) {
            let c = choose|c: int| 0 <= c < entries.len() && (#[trigger] entries[c]).0 == key;
            assert(map.contains_key(entries[c].0));
        }
    }
}

/// A well-formed state stays well formed when its oldest frozen memtable
/// becomes a sound table with the memtable's id.
pub proof fn lemma_flushed_well_formed(before: StateView, table: SstView)
    requires
        well_formed(before),
        before.frozen.len() > 0,
        sound(table),
        table.id == before.frozen.last().id,
    ensures
        well_formed(flushed_state(before, table)),
{
    let s = flushed_state(before, table);
    assert forall|i: int| 0 <= i < s.tables.len() implies sound(#[trigger] s.tables[i])
        && s.tables[i].id < s.current.id by {
        if i > 0 {
            assert(s.tables[i] == before.tables[i - 1]);
        }
    }
    assert forall|i: int, j: int| 0 <= i < j < s.tables.len() implies (#[trigger] s.tables[j]).id
        < (#[trigger] s.tables[i]).id by {
        assert(s.tables[j] == before.tables[j - 1]);
        if i > 0 {
            assert(s.tables[i] == before.tables[i - 1]);
        }
    }
    assert forall|i: int, j: int|
        0 <= i < s.tables.len() && 0 <= j < s.frozen.len() implies (#[trigger] s.tables[i]).id < (
    #[trigger] s.frozen[j]).id by {
        assert(s.frozen[j] == before.frozen[j]);
        if i > 0 {
            assert(s.tables[i] == before.tables[i - 1]);
        }
    }
    assert forall|i: int| 0 <= i < s.frozen.len() implies !(#[trigger] s.frozen[i]).mutable
        && s.frozen[i].id < s.current.id by {
        assert(s.frozen[i] == before.frozen[i]);
    }
    assert forall|i: int, j: int| 0 <= i < j < s.frozen.len() implies (#[trigger] s.frozen[j]).id
        < (#[trigger] s.frozen[i]).id by {
        assert(s.frozen[i] == before.frozen[i]);
        assert(s.frozen[j] == before.frozen[j]);
    }
}

/// A well-formed state stays well formed when its current memtable is
/// frozen, as long as an id is left for the new one.
pub proof fn lemma_frozen_well_formed(before: StateView)
    requires
        well_formed(before),
        before.next_id < usize::MAX,
    ensures
        well_formed(frozen_state(before)),
{
    let s = frozen_state(before);
    assert forall|i: int| 0 <= i < s.frozen.len() implies !(#[trigger] s.frozen[i]).mutable
        && s.frozen[i].id < s.current.id by {
        if i > 0 {
            assert(s.frozen[i] == before.frozen[i - 1]);
        }
    }
    assert forall|i: int, j: int| 0 <= i < j < s.frozen.len() implies (#[trigger] s.frozen[j]).id
        < (#[trigger] s.frozen[i]).id by {
        assert(s.frozen[j] == before.frozen[j - 1]);
        if i > 0 {
            assert(s.frozen[i] == before.frozen[i - 1]);
        }
    }
    assert forall|i: int, j: int|
        0 <= i < s.tables.len() && 0 <= j < s.frozen.len() implies (#[trigger] s.tables[i]).id < (
    #[trigger] s.frozen[j]).id by {
        if j > 0 {
            assert(s.frozen[j] == before.frozen[j - 1]);
        }
    }
}

/// Whether a memtable with the entries of `map` can be flushed to a table
/// with blocks of the target size: a table builder can take the entries
/// one after the other, in key order, and can then build the table.
pub open spec fn flushable(map: Map<Seq<u8>, Seq<u8>>, target: usize) -> bool {
    match added_all(
        new_builder(target),
        sorted_entries(map),
        sorted_entries(map).len() as int,
    ) {
        Some(b) => buildable_in(b),
        None => false,
    }
}

/// The table that a flush builds from a memtable with the entries of
/// `map`: the table that a builder with blocks of the target size builds
/// from the entries in key order, with the given id.
pub open spec fn flushed_table(map: Map<Seq<u8>, Seq<u8>>, target: usize, id: usize) -> SstView {
    built_table(
        added_all(
            new_builder(target),
            sorted_entries(map),
            sorted_entries(map).len() as int,
        ).unwrap(),
        id,
    )
}

/// A state as the operations keep it: the current memtable is mutable and
/// the frozen ones are not, every table is sound, and the ids fall from the
/// next id over the current memtable and the frozen memtables to the
/// tables, so that what is newer has the larger id.
pub open spec fn well_formed(s: StateView) -> bool {
    &&& s.current.mutable
    &&& s.current.id < s.next_id
    &&& forall|i: int| 0 <= i < s.frozen.len() ==> !(#[trigger] s.frozen[i]).mutable
    &&& forall|i: int| 0 <= i < s.frozen.len() ==> (#[trigger] s.frozen[i]).id < s.current.id
    &&& forall|i: int, j: int|
        0 <= i < j < s.frozen.len() ==> (#[trigger] s.frozen[j]).id < (#[trigger] s.frozen[i]).id
    &&& forall|i: int| 0 <= i < s.tables.len() ==> sound(#[trigger] s.tables[i])
    &&& forall|i: int, j: int|
        0 <= i < j < s.tables.len() ==> (#[trigger] s.tables[j]).id < (#[trigger] s.tables[i]).id
    &&& forall|i: int, j: int|
        0 <= i < s.tables.len() && 0 <= j < s.frozen.len() ==> (#[trigger] s.tables[i]).id < (
        #[trigger] s.frozen[j]).id
    &&& forall|i: int| 0 <= i < s.tables.len() ==> (#[trigger] s.tables[i]).id < s.current.id
}

} // verus!
