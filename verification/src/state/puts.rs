//! What a scan yields after puts with keys that are all different, with any
//! freezes and flushes between them: the entries that were put, in key
//! order.

use crate::block::RawEntry;
use crate::block::iterator::stamped;
use crate::iterator::bounded_iterator::bounded_prefix;
use crate::iterator::merge_iterator::merge_all;
use crate::iterator::merge_order::{
    lemma_merge_of_sorted, lemma_merge_two_sorted, lemma_stamped_sorted, sorted, sources_of,
    union_upto,
};
use crate::kv::kv_pair::Entry;
use crate::lex::{lemma_lex_trichotomy, lex_lt};
use crate::memory::memtable::{lemma_lists_range_unique, lists_range, no_entries};
use crate::memory::memtable::iterator::stamped_all;
use crate::state::model::{
    after_steps, flushed_state, frozen_state, opened_state, puts_key, rotates, step_taken,
    steps_taken, written_state, StateView, Step,
};
use crate::state::scan::{
    memtable_streams, range_entries, scan_result, table_streams, table_streams_upto,
};
use crate::table::{ascending, table_entries, SstView};
use crate::table::lookup::{lemma_smaller_count, smaller_count};
use std::ops::Bound;
use vstd::multiset::Multiset;
use vstd::prelude::*;
use vstd::seq_lib::lemma_multiset_commutative;

verus! {

/// The entries of `map`, in ascending key order.
pub open spec fn all_entries(map: Map<Seq<u8>, Seq<u8>>) -> Seq<RawEntry> {
    range_entries(map, Bound::Unbounded, Bound::Unbounded)
}

/// Whether the entries of `map` can be listed in ascending key order.
pub open spec fn listed(map: Map<Seq<u8>, Seq<u8>>) -> bool {
    lists_range(map, Bound::Unbounded, Bound::Unbounded, all_entries(map))
}

/// The maps of the memtables of a state: the current one, then the frozen
/// ones.
pub open spec fn maps_of(s: StateView) -> Seq<Map<Seq<u8>, Seq<u8>>> {
    Seq::new(
        s.frozen.len() + 1,
        |i: int|
            if i == 0 {
                s.current.map
            } else {
                s.frozen[i - 1].map
            },
    )
}

/// A list with one more entry, put where its key belongs.
pub open spec fn with_entry(s: Seq<RawEntry>, key: Seq<u8>, value: Seq<u8>) -> Seq<RawEntry> {
    s.subrange(0, smaller_count(s, key)) + seq![(key, value)] + s.subrange(
        smaller_count(s, key),
        s.len() as int,
    )
}

/// The list of a map with one more key is the list of the map with the
/// entry put where its key belongs.
#[verifier::rlimit(30)]
pub proof fn lemma_with_entry(
    map: Map<Seq<u8>, Seq<u8>>,
    s: Seq<RawEntry>,
    key: Seq<u8>,
    value: Seq<u8>,
)
    requires
        lists_range(map, Bound::Unbounded, Bound::Unbounded, s),
        !map.contains_key(key),
    ensures
        lists_range(
            map.insert(key, value),
            Bound::Unbounded,
            Bound::Unbounded,
            with_entry(s, key, value),
        ),
        stamped_all(with_entry(s, key, value)).to_multiset() == stamped_all(
            s,
        ).to_multiset().insert(stamped((key, value))),
{
    let p = smaller_count(s, key);
    let r = with_entry(s, key, value);
    let m2 = map.insert(key, value);
    lemma_smaller_count(s, key);
    assert(r.len() == s.len() + 1);
    assert forall|i: int| 0 <= i < r.len() implies (#[trigger] r[i]) == (if i < p {
        s[i]
    } else if i == p {
        (key, value)
    } else {
        s[i - 1]
    }) by {}
    assert forall|i: int, j: int| 0 <= i < j < r.len() implies lex_lt(
        (#[trigger] r[i]).0,
        (#[trigger] r[j]).0,
    ) by {
        if j < p {
            assert(lex_lt(s[i].0, s[j].0));
        } else if j == p {
            assert(lex_lt(s[i].0, key));
        } else if i < p {
            assert(lex_lt(s[i].0, s[j - 1].0));
        } else if i == p {
            assert(map.contains_key(s[j - 1].0));
            lemma_lex_trichotomy(key, s[j - 1].0);
        } else {
            assert(lex_lt(s[i - 1].0, s[j - 1].0));
        }
    }
    assert forall|i: int| 0 <= i < r.len() implies m2.contains_key((#[trigger] r[i]).0)
        && m2[r[i].0] == r[i].1 by {
        if i < p {
            assert(map.contains_key(s[i].0));
        } else if i > p {
            assert(map.contains_key(s[i - 1].0));
        }
    }
    assert forall|k: Seq<u8>| #[trigger] m2.contains_key(k) implies exists|i: int|
        0 <= i < r.len() && (#[trigger] r[i]).0 == k by {
        if k == key {
            assert(r[p].0 == k);
        } else {
            assert(map.contains_key(k));
            let i = choose|i: int| 0 <= i < s.len() && (#[trigger] s[i]).0 == k;
            if i < p {
                assert(r[i].0 == k);
            } else {
                assert(r[i + 1].0 == k);
            }
        }
    }
    let e = stamped((key, value));
    let front = stamped_all(s.subrange(0, p));
    let back = stamped_all(s.subrange(p, s.len() as int));
    assert(stamped_all(r) =~= front + seq![e] + back);
    assert(stamped_all(s) =~= front + back);
    lemma_multiset_commutative(front + seq![e], back);
    lemma_multiset_commutative(front, seq![e]);
    lemma_multiset_commutative(front, back);
    assert(seq![e].to_multiset() =~= Multiset::singleton(e)) by {
        vstd::seq_lib::to_multiset_build(Seq::<Entry>::empty(), e);
        assert(Seq::<Entry>::empty().push(e) =~= seq![e]);
        Seq::<Entry>::empty().to_multiset_ensures();
    }
    assert(stamped_all(r).to_multiset() =~= stamped_all(s).to_multiset().insert(e));
}

/// The map without entries has the empty list.
pub proof fn lemma_listed_empty()
    ensures
        listed(no_entries()),
        all_entries(no_entries()) == Seq::<RawEntry>::empty(),
{
    let empty = Seq::<RawEntry>::empty();
    assert(lists_range(no_entries(), Bound::Unbounded, Bound::Unbounded, empty));
    lemma_lists_range_unique(
        no_entries(),
        Bound::Unbounded,
        Bound::Unbounded,
        empty,
        all_entries(no_entries()),
    );
}

/// A listed map with one more key is listed, and its entries are those of
/// the map with the new one.
pub proof fn lemma_listed_insert(map: Map<Seq<u8>, Seq<u8>>, key: Seq<u8>, value: Seq<u8>)
    requires
        listed(map),
        !map.contains_key(key),
    ensures
        listed(map.insert(key, value)),
        stamped_all(all_entries(map.insert(key, value))).to_multiset() == stamped_all(
            all_entries(map),
        ).to_multiset().insert(stamped((key, value))),
{
    lemma_with_entry(map, all_entries(map), key, value);
    lemma_lists_range_unique(
        map.insert(key, value),
        Bound::Unbounded,
        Bound::Unbounded,
        with_entry(all_entries(map), key, value),
        all_entries(map.insert(key, value)),
    );
}

/// The entries of the first `n` of the streams, the first stream apart.
pub proof fn lemma_union_first(streams: Seq<Seq<Entry>>, n: int)
    requires
        1 <= n <= streams.len(),
    ensures
        union_upto(streams, n) == streams[0].to_multiset().add(
            union_upto(streams.drop_first(), n - 1),
        ),
    decreases n,
{
    let rest = streams.drop_first();
    if n == 1 {
        assert(union_upto(streams, 0) =~= Multiset::<Entry>::empty());
        assert(union_upto(rest, 0) =~= Multiset::<Entry>::empty());
        assert(union_upto(streams, 1) =~= streams[0].to_multiset().add(union_upto(rest, 0)));
    } else {
        lemma_union_first(streams, n - 1);
        assert(rest[n - 2] == streams[n - 1]);
        assert(union_upto(streams, n) =~= streams[0].to_multiset().add(union_upto(rest, n - 1)));
    }
}

/// The first `n` of two lists of streams that agree on them hold the same
/// entries.
pub proof fn lemma_union_agree(a: Seq<Seq<Entry>>, b: Seq<Seq<Entry>>, n: int)
    requires
        0 <= n <= a.len(),
        n <= b.len(),
        forall|i: int| 0 <= i < n ==> a[i] == b[i],
    ensures
        union_upto(a, n) == union_upto(b, n),
    decreases n,
{
    if n > 0 {
        lemma_union_agree(a, b, n - 1);
    }
}

/// Without an upper bound every entry of a stream is within the bound.
pub proof fn lemma_bounded_prefix_unbounded(s: Seq<Entry>)
    ensures
        bounded_prefix(s, Bound::Unbounded) == s,
    decreases s.len(),
{
    if s.len() > 0 {
        lemma_bounded_prefix_unbounded(s.drop_first());
        assert(bounded_prefix(s, Bound::Unbounded) =~= s);
    } else {
        assert(bounded_prefix(s, Bound::Unbounded) =~= s);
    }
}

/// The entries of each table, as streams in the order of the tables.
pub open spec fn whole_tables(tables: Seq<SstView>) -> Seq<Seq<Entry>> {
    Seq::new(tables.len(), |i: int| stamped_all(table_entries(tables[i])))
}

/// A scan without bounds reads every table whole.
pub proof fn lemma_table_streams_unbounded(tables: Seq<SstView>, n: int)
    requires
        0 <= n <= tables.len(),
    ensures
        table_streams_upto(tables, n, Bound::Unbounded, Bound::Unbounded) == whole_tables(
            tables,
        ).subrange(0, n),
    decreases n,
{
    let unbounded = Bound::<&[u8]>::Unbounded;
    if n > 0 {
        lemma_table_streams_unbounded(tables, n - 1);
        lemma_bounded_prefix_unbounded(stamped_all(table_entries(tables[n - 1])));
        assert(table_streams_upto(tables, n, unbounded, unbounded) =~= whole_tables(
            tables,
        ).subrange(0, n));
    } else {
        assert(table_streams_upto(tables, n, unbounded, unbounded) =~= whole_tables(
            tables,
        ).subrange(0, n));
    }
}

/// Whether one of the entries has the key.
pub open spec fn has_key(written: Seq<RawEntry>, key: Seq<u8>) -> bool {
    exists|j: int| 0 <= j < written.len() && (#[trigger] written[j]).0 == key
}

/// The entries that the memtables and the tables of a state hold, each as
/// often as they hold it.
pub open spec fn held(s: StateView) -> Multiset<Entry> {
    union_upto(
        memtable_streams(s, Bound::Unbounded, Bound::Unbounded),
        memtable_streams(s, Bound::Unbounded, Bound::Unbounded).len() as int,
    ).add(union_upto(whole_tables(s.tables), s.tables.len() as int))
}

/// What holds of a store that was opened and then took puts with keys that
/// are all different, with freezes and flushes between them: the entries of
/// each memtable can be listed, the keys of each table ascend, the
/// memtables and tables together hold the entries that were put, each once,
/// and no other key.
pub open spec fn holds_written(s: StateView, written: Seq<RawEntry>) -> bool {
    &&& forall|i: int| 0 <= i < maps_of(s).len() ==> listed(#[trigger] maps_of(s)[i])
    &&& forall|i: int| 0 <= i < s.tables.len() ==> ascending(table_entries(#[trigger] s.tables[i]))
    &&& held(s) == stamped_all(written).to_multiset()
    &&& forall|i: int, key: Seq<u8>|
        0 <= i < maps_of(s).len() && (#[trigger] maps_of(s)[i]).contains_key(key)
            ==> #[trigger] has_key(written, key)
    &&& forall|i: int, j: int|
        0 <= i < s.tables.len() && 0 <= j < table_entries(s.tables[i]).len() ==> has_key(
            written,
            (#[trigger] table_entries(s.tables[i])[j]).0,
        )
}

/// A store that was just opened holds nothing.
pub proof fn lemma_holds_opened()
    ensures
        holds_written(opened_state(), Seq::empty()),
{
    let unbounded = Bound::<&[u8]>::Unbounded;
    let s = opened_state();
    lemma_listed_empty();
    let streams = memtable_streams(s, unbounded, unbounded);
    assert(streams[0] =~= Seq::<Entry>::empty());
    Seq::<Entry>::empty().to_multiset_ensures();
    assert(Seq::<Entry>::empty().to_multiset() =~= Multiset::<Entry>::empty());
    assert(streams.len() == 1);
    assert(union_upto(streams, 0) =~= Multiset::<Entry>::empty());
    assert(union_upto(streams, 1) =~= Multiset::<Entry>::empty());
    assert(union_upto(whole_tables(s.tables), 0) =~= Multiset::<Entry>::empty());
    assert(stamped_all(Seq::<RawEntry>::empty()) =~= Seq::<Entry>::empty());
    assert(held(s) =~= stamped_all(Seq::<RawEntry>::empty()).to_multiset());
}

/// Freezing the current memtable keeps what the store holds.
pub proof fn lemma_holds_frozen(s: StateView, written: Seq<RawEntry>)
    requires
        holds_written(s, written),
    ensures
        holds_written(frozen_state(s), written),
{
    let f = frozen_state(s);
    let unbounded = Bound::<&[u8]>::Unbounded;
    let before = memtable_streams(s, unbounded, unbounded);
    let after = memtable_streams(f, unbounded, unbounded);
    lemma_listed_empty();
    assert forall|i: int| 0 <= i < maps_of(f).len() implies listed(#[trigger] maps_of(f)[i]) by {
        if i > 0 {
            assert(maps_of(f)[i] == maps_of(s)[i - 1]);
        }
    }
    assert forall|i: int, key: Seq<u8>|
        0 <= i < maps_of(f).len() && (#[trigger] maps_of(f)[i]).contains_key(
            key,
        ) implies #[trigger] has_key(written, key) by {
        assert(i > 0);
        assert(maps_of(f)[i] == maps_of(s)[i - 1]);
        assert(maps_of(s)[i - 1].contains_key(key));
    }
    assert(after.drop_first() =~= before) by {
        assert forall|i: int| 0 <= i < before.len() implies after.drop_first()[i] == before[i] by {
            assert(maps_of(f)[i + 1] == maps_of(s)[i]);
        }
    }
    lemma_union_first(after, after.len() as int);
    assert(after[0] =~= Seq::<Entry>::empty());
    Seq::<Entry>::empty().to_multiset_ensures();
    assert(after[0].to_multiset().add(union_upto(before, before.len() as int)) =~= union_upto(
        before,
        before.len() as int,
    ));
}

/// A write under a key that was not yet written keeps what the store
/// holds, with one more entry.
#[verifier::rlimit(30)]
pub proof fn lemma_holds_put(s: StateView, written: Seq<RawEntry>, key: Seq<u8>, value: Seq<u8>)
    requires
        holds_written(s, written),
        !has_key(written, key),
    ensures
        holds_written(written_state(s, key, value), written.push((key, value))),
{
    let w = written_state(s, key, value);
    let more = written.push((key, value));
    let unbounded = Bound::<&[u8]>::Unbounded;
    let before = memtable_streams(s, unbounded, unbounded);
    let after = memtable_streams(w, unbounded, unbounded);
    assert(maps_of(s)[0] == s.current.map);
    assert(listed(maps_of(s)[0]));
    if s.current.map.contains_key(key) {
        assert(maps_of(s)[0].contains_key(key));
        assert(has_key(written, key));
    }
    lemma_listed_insert(s.current.map, key, value);
    assert forall|i: int| 0 <= i < maps_of(w).len() implies listed(#[trigger] maps_of(w)[i]) by {
        if i > 0 {
            assert(maps_of(w)[i] == maps_of(s)[i]);
        }
    }
    assert forall|i: int, k: Seq<u8>|
        0 <= i < maps_of(w).len() && (#[trigger] maps_of(w)[i]).contains_key(
            k,
        ) implies #[trigger] has_key(more, k) by {
        if i == 0 && k == key {
            assert(more[written.len() as int].0 == k);
        } else {
            assert(maps_of(s)[i].contains_key(k));
            assert(has_key(written, k));
            let j = choose|j: int| 0 <= j < written.len() && (#[trigger] written[j]).0 == k;
            assert(more[j].0 == k);
        }
    }
    assert forall|i: int, j: int|
        0 <= i < w.tables.len() && 0 <= j < table_entries(w.tables[i]).len() implies has_key(
        more,
        (#[trigger] table_entries(w.tables[i])[j]).0,
    ) by {
        let k = table_entries(s.tables[i])[j].0;
        assert(has_key(written, k));
        let x = choose|x: int| 0 <= x < written.len() && (#[trigger] written[x]).0 == k;
        assert(more[x].0 == k);
    }
    assert(after.drop_first() =~= before.drop_first()) by {
        assert forall|i: int| 0 <= i < before.len() - 1 implies after.drop_first()[i]
            == before.drop_first()[i] by {
            assert(maps_of(w)[i + 1] == maps_of(s)[i + 1]);
        }
    }
    lemma_union_first(after, after.len() as int);
    lemma_union_first(before, before.len() as int);
    let e = stamped((key, value));
    let so_far = stamped_all(written);
    assert(stamped_all(more) =~= so_far.push(e));
    vstd::seq_lib::to_multiset_build(so_far, e);
    assert(union_upto(after, after.len() as int) =~= union_upto(
        before,
        before.len() as int,
    ).insert(e));
    assert(held(w) =~= held(s).insert(e));
}

/// A flush keeps what the store holds: the new table holds what the oldest
/// frozen memtable held.
#[verifier::rlimit(30)]
pub proof fn lemma_holds_flushed(s: StateView, written: Seq<RawEntry>, table: SstView)
    requires
        holds_written(s, written),
        s.frozen.len() > 0,
        lists_range(s.frozen.last().map, Bound::Unbounded, Bound::Unbounded, table_entries(table)),
    ensures
        holds_written(flushed_state(s, table), written),
{
    let f = flushed_state(s, table);
    let unbounded = Bound::<&[u8]>::Unbounded;
    let before = memtable_streams(s, unbounded, unbounded);
    let after = memtable_streams(f, unbounded, unbounded);
    let oldest = s.frozen.last().map;
    let last = maps_of(s).len() - 1;
    assert(maps_of(s)[last] == oldest);
    assert(listed(maps_of(s)[last]));
    lemma_lists_range_unique(
        oldest,
        Bound::Unbounded,
        Bound::Unbounded,
        table_entries(table),
        all_entries(oldest),
    );
    assert forall|i: int| 0 <= i < maps_of(f).len() implies listed(#[trigger] maps_of(f)[i]) by {
        assert(maps_of(f)[i] == maps_of(s)[i]);
    }
    assert forall|i: int| 0 <= i < f.tables.len() implies ascending(
        table_entries(#[trigger] f.tables[i]),
    ) by {
        if i > 0 {
            assert(f.tables[i] == s.tables[i - 1]);
        }
    }
    assert forall|i: int, key: Seq<u8>|
        0 <= i < maps_of(f).len() && (#[trigger] maps_of(f)[i]).contains_key(
            key,
        ) implies #[trigger] has_key(written, key) by {
        assert(maps_of(f)[i] == maps_of(s)[i]);
        assert(maps_of(s)[i].contains_key(key));
    }
    assert forall|i: int, j: int|
        0 <= i < f.tables.len() && 0 <= j < table_entries(f.tables[i]).len() implies has_key(
        written,
        (#[trigger] table_entries(f.tables[i])[j]).0,
    ) by {
        if i > 0 {
            assert(f.tables[i] == s.tables[i - 1]);
            assert(has_key(written, table_entries(s.tables[i - 1])[j].0));
        } else {
            let k = table_entries(table)[j].0;
            assert(oldest.contains_key(k));
            assert(maps_of(s)[last].contains_key(k));
        }
    }
    // the memtables lose the stream of the oldest
    assert forall|i: int| 0 <= i < after.len() implies after[i] == before[i] by {
        assert(maps_of(f)[i] == maps_of(s)[i]);
    }
    lemma_union_agree(after, before, after.len() as int);
    assert(before[last] == stamped_all(all_entries(oldest)));
    // the tables gain it
    let tables_before = whole_tables(s.tables);
    let tables_after = whole_tables(f.tables);
    assert(tables_after.drop_first() =~= tables_before) by {
        assert forall|i: int| 0 <= i < tables_before.len() implies tables_after.drop_first()[i]
            == tables_before[i] by {
            assert(f.tables[i + 1] == s.tables[i]);
        }
    }
    lemma_union_first(tables_after, tables_after.len() as int);
    assert(tables_after[0] == stamped_all(table_entries(table)));
    assert(held(f) =~= held(s));
}

/// The entries that the first `n` steps put, in the order of the steps.
pub open spec fn puts_of(steps: Seq<Step>, n: int) -> Seq<RawEntry>
    decreases n,
{
    if n <= 0 {
        Seq::empty()
    } else {
        match steps[n - 1] {
            Step::Put { key, value } => puts_of(steps, n - 1).push((key, value)),
            _ => puts_of(steps, n - 1),
        }
    }
}

/// Whether no two of the first `n` steps put something under the same key.
pub open spec fn puts_differ(steps: Seq<Step>, n: int) -> bool {
    forall|i: int, j: int|
        0 <= i < j < n && (#[trigger] steps[i]) is Put ==> !puts_key(
            #[trigger] steps[j],
            steps[i]->key,
        )
}

/// A key among the entries that the first `n` steps put is the key of one
/// of those steps.
pub proof fn lemma_puts_of_key(steps: Seq<Step>, n: int, key: Seq<u8>)
    requires
        0 <= n <= steps.len(),
        has_key(puts_of(steps, n), key),
    ensures
        exists|i: int| 0 <= i < n && puts_key(#[trigger] steps[i], key),
    decreases n,
{
    let w = puts_of(steps, n);
    let j = choose|j: int| 0 <= j < w.len() && (#[trigger] w[j]).0 == key;
    if n > 0 {
        let before = puts_of(steps, n - 1);
        if steps[n - 1] is Put && j == before.len() {
            assert(puts_key(steps[n - 1], key));
        } else {
            assert(before[j].0 == key);
            lemma_puts_of_key(steps, n - 1, key);
            let i = choose|i: int| 0 <= i < n - 1 && puts_key(#[trigger] steps[i], key);
            assert(puts_key(steps[i], key));
        }
    }
}

/// A store that was opened and then took puts with keys that are all
/// different, with freezes and flushes between them, holds the entries that
/// were put.
pub proof fn lemma_holds_steps(max_size: usize, steps: Seq<Step>, n: int)
    requires
        0 <= n <= steps.len(),
        steps_taken(opened_state(), max_size, steps, n),
        puts_differ(steps, n),
    ensures
        holds_written(after_steps(opened_state(), max_size, steps, n), puts_of(steps, n)),
    decreases n,
{
    if n == 0 {
        lemma_holds_opened();
    } else {
        lemma_holds_steps(max_size, steps, n - 1);
        let s = after_steps(opened_state(), max_size, steps, n - 1);
        let written = puts_of(steps, n - 1);
        assert(step_taken(s, steps[n - 1]));
        match steps[n - 1] {
            Step::Put { key, value } => {
                if has_key(written, key) {
                    lemma_puts_of_key(steps, n - 1, key);
                    let i = choose|i: int| 0 <= i < n - 1 && puts_key(#[trigger] steps[i], key);
                    assert(!puts_key(steps[n - 1], steps[i]->key));
                }
                if rotates(s, max_size, key.len(), value.len()) {
                    lemma_holds_frozen(s, written);
                    lemma_holds_put(frozen_state(s), written, key, value);
                } else {
                    lemma_holds_put(s, written, key, value);
                }
            },
            Step::Freeze => {
                lemma_holds_frozen(s, written);
            },
            Step::Flush { table } => {
                lemma_holds_flushed(s, written, table);
            },
        }
    }
}

/// After a store is opened and takes puts with keys that are all
/// different, with any freezes and flushes between them, a scan without
/// bounds yields the entries that were put, each once, in key order.
pub proof fn lemma_scan_after_steps(max_size: usize, steps: Seq<Step>)
    requires
        steps_taken(opened_state(), max_size, steps, steps.len() as int),
        puts_differ(steps, steps.len() as int),
    ensures
        sorted(
            scan_result(
                after_steps(opened_state(), max_size, steps, steps.len() as int),
                Bound::Unbounded,
                Bound::Unbounded,
            ),
        ),
        scan_result(
            after_steps(opened_state(), max_size, steps, steps.len() as int),
            Bound::Unbounded,
            Bound::Unbounded,
        ).to_multiset() == stamped_all(puts_of(steps, steps.len() as int)).to_multiset(),
{
    let unbounded = Bound::<&[u8]>::Unbounded;
    let s = after_steps(opened_state(), max_size, steps, steps.len() as int);
    lemma_holds_steps(max_size, steps, steps.len() as int);
    let streams = memtable_streams(s, unbounded, unbounded);
    assert forall|i: int| 0 <= i < streams.len() implies sorted(#[trigger] streams[i]) by {
        assert(listed(maps_of(s)[i]));
        lemma_stamped_sorted(all_entries(maps_of(s)[i]));
    }
    let tables = table_streams(s.tables, unbounded, unbounded);
    lemma_table_streams_unbounded(s.tables, s.tables.len() as int);
    assert(tables =~= whole_tables(s.tables));
    assert forall|i: int| 0 <= i < tables.len() implies sorted(#[trigger] tables[i]) by {
        assert(ascending(table_entries(s.tables[i])));
        lemma_stamped_sorted(table_entries(s.tables[i]));
    }
    lemma_merge_of_sorted(streams);
    lemma_merge_of_sorted(tables);
    lemma_merge_two_sorted(merge_all(sources_of(streams)), merge_all(sources_of(tables)));
}

} // verus!
