//! What a scan yields, and the cursors that a scan places on the tables.

use crate::block::RawEntry;
use crate::error::LsmError;
use crate::iterator::StorageIterator;
use crate::iterator::bounded_iterator::{bounded_prefix, BoundedIterator};
use crate::iterator::merge_iterator::{merge_all, MergeIterator};
use crate::iterator::merge_order::{
    lemma_bounded_prefix_sorted, lemma_stamped_sorted, sorted, sources_of,
};
use crate::iterator::two_merge_iterator::{merge_two, TwoMergeIterator};
use crate::kv::kv_pair::Entry;
use crate::kv::timestamped_key::TimestampedKey;
use crate::lex::{copy_bytes, equal};
use crate::memory::memtable::lists_range;
use crate::memory::memtable::iterator::{stamped_all, MemTableIterator};
use crate::state::model::StateView;
use crate::table::{
    block_at, lemma_sound_block, lemma_sound_nonempty, sound, table_entries, Sst, SstView,
};
use crate::table::iterator::SSTIterator;
use crate::table::lookup::{
    entries_after_key, entries_from_key, lemma_from_key_sorted, lemma_sound_ascending,
    lemma_stream_all, lemma_stream_clean,
};
use crate::utils::{ranges_overlap, share};
use std::ops::Bound;
use std::sync::Arc;
use vstd::prelude::*;

verus! {

/// The entries of `map` whose keys lie within the bounds, in ascending key
/// order.
pub open spec fn range_entries(
    map: Map<Seq<u8>, Seq<u8>>,
    lower: Bound<&[u8]>,
    upper: Bound<&[u8]>,
) -> Seq<RawEntry> {
    choose|s: Seq<RawEntry>| lists_range(map, lower, upper, s)
}

/// The streams of a scan over the memtables: for the current memtable and
/// then each frozen one, its entries within the bounds.
pub open spec fn memtable_streams(s: StateView, lower: Bound<&[u8]>, upper: Bound<&[u8]>) -> Seq<
    Seq<Entry>,
> {
    Seq::new(
        s.frozen.len() + 1,
        |i: int|
            stamped_all(
                range_entries(
                    if i == 0 {
                        s.current.map
                    } else {
                        s.frozen[i - 1].map
                    },
                    lower,
                    upper,
                ),
            ),
    )
}

/// An upper bound of a scan as a bound on keys with timestamp zero.
pub open spec fn upper_of(upper: Bound<&[u8]>) -> Bound<(Seq<u8>, usize)> {
    match upper {
        Bound::Included(k) => Bound::Included((k@, 0usize)),
        Bound::Excluded(k) => Bound::Excluded((k@, 0usize)),
        Bound::Unbounded => Bound::Unbounded,
    }
}

/// The entries of a table that a scan with the lower bound reads, up to
/// the end of the table: all of them without a bound, those from the first
/// whose key is no smaller than an included bound, and those from the first
/// whose key is larger than an excluded bound.
pub open spec fn seek_stream(v: SstView, lower: Bound<&[u8]>) -> Seq<Entry> {
    match lower {
        Bound::Unbounded => stamped_all(table_entries(v)),
        Bound::Included(k) => stamped_all(entries_from_key(table_entries(v), k@)),
        Bound::Excluded(k) => stamped_all(entries_after_key(table_entries(v), k@)),
    }
}

/// The stream of a table in a scan: from where the scan starts in it, up to
/// the first entry that exceeds the upper bound.
pub open spec fn table_scan(v: SstView, lower: Bound<&[u8]>, upper: Bound<&[u8]>) -> Seq<Entry> {
    bounded_prefix(seek_stream(v, lower), upper_of(upper))
}

/// Whether a scan reads a table: the range of the scan overlaps the range
/// between the table's first and last key.
pub open spec fn scans_table(v: SstView, lower: Bound<&[u8]>, upper: Bound<&[u8]>) -> bool {
    ranges_overlap(lower, upper, v.metas[0].first_key, v.metas.last().last_key)
}

/// The streams of a scan over the first `n` tables: the stream of each
/// table that the scan reads, in the order of the tables.
pub open spec fn table_streams_upto(
    tables: Seq<SstView>,
    n: int,
    lower: Bound<&[u8]>,
    upper: Bound<&[u8]>,
) -> Seq<Seq<Entry>>
    decreases n,
{
    if n <= 0 {
        Seq::empty()
    } else if scans_table(tables[n - 1], lower, upper) {
        table_streams_upto(tables, n - 1, lower, upper).push(
            table_scan(tables[n - 1], lower, upper),
        )
    } else {
        table_streams_upto(tables, n - 1, lower, upper)
    }
}

/// The streams of a scan over the tables.
pub open spec fn table_streams(tables: Seq<SstView>, lower: Bound<&[u8]>, upper: Bound<&[u8]>)
    -> Seq<Seq<Entry>> {
    table_streams_upto(tables, tables.len() as int, lower, upper)
}

/// What a scan yields: the merge of the memtable streams merged with the
/// merge of the table streams. Among entries with the same key, those of
/// memtables come before those of tables, and within each those of the
/// newer come first.
pub open spec fn scan_result(s: StateView, lower: Bound<&[u8]>, upper: Bound<&[u8]>) -> Seq<
    Entry,
> {
    merge_two(
        merge_all(sources_of(memtable_streams(s, lower, upper))),
        true,
        merge_all(sources_of(table_streams(s.tables, lower, upper))),
        true,
    )
}

/// The stream that a scan yields.
pub type ScanIterator = TwoMergeIterator<
    MergeIterator<MemTableIterator>,
    MergeIterator<BoundedIterator<SSTIterator>>,
>;

/// The cursor of a scan over one sound table: on the first entry of the
/// table that lies at or above the lower bound, and cut off at the upper
/// bound.
#[verifier::rlimit(30)]
pub fn table_cursor(sst: &Arc<Sst>, lower: Bound<&[u8]>, upper: Bound<&[u8]>) -> (r: Result<
    BoundedIterator<SSTIterator>,
    LsmError,
>)
    requires
        sound(sst@),
    ensures
        r matches Ok(it) && it.inv() && it.ends_cleanly() && it.pending() == table_scan(
            sst@,
            lower,
            upper,
        ),
        sorted(table_scan(sst@, lower, upper)),
{
    let ghost v = sst@;
    proof {
        lemma_sound_nonempty(v);
        lemma_sound_block(v, 0);
        lemma_sound_ascending(v);
        lemma_stream_all(v);
    }
    let made = match lower {
        Bound::Included(lower_key) => SSTIterator::create_and_seek_to_key(
            share(sst),
            TimestampedKey::new(copy_bytes(lower_key)),
        ),
        Bound::Excluded(lower_key) => SSTIterator::create_and_seek_to_key(
            share(sst),
            TimestampedKey::new(copy_bytes(lower_key)),
        ),
        Bound::Unbounded => SSTIterator::create_and_seek_to_first(share(sst)),
    };
    let mut sst_iterator = match made {
        Ok(it) => it,
        Err(e) => {
            proof {
                if !(lower is Unbounded) {
                    let bad = choose|bad: int| 0 <= bad < v.metas.len() && block_at(v, bad) is None;
                    lemma_sound_block(v, bad);
                }
            }
            return Err(e);
        },
    };
    proof {
        lemma_stream_clean(
            v,
            sst_iterator.block_index(),
            sst_iterator.block(),
            sst_iterator.entry_index(),
        );
        match lower {
            Bound::Included(k) => {
                lemma_from_key_sorted(table_entries(v), k@);
            },
            Bound::Excluded(k) => {
                lemma_from_key_sorted(table_entries(v), k@);
            },
            Bound::Unbounded => {
                lemma_stamped_sorted(table_entries(v));
            },
        }
    }
    match lower {
        Bound::Excluded(lower_key) => {
            if sst_iterator.is_valid() {
                let at_bound = match sst_iterator.peek() {
                    Some(kv) => equal(kv.key.key_ref().as_slice(), lower_key),
                    None => false,
                };
                if at_bound {
                    sst_iterator.next();
                }
            }
        },
        _ => {},
    }
    assert(sst_iterator.pending() == seek_stream(v, lower));
    proof {
        lemma_bounded_prefix_sorted(seek_stream(v, lower), upper_of(upper));
    }
    Ok(BoundedIterator::new(sst_iterator, upper))
}

} // verus!
