//! Where a key stands in a sound table, and that a search finds it there.

use crate::block::{entry_at, BlockView, RawEntry};
use crate::block::iterator::{keys_ascend, lands_at, stamped};
use crate::error::LsmError;
use crate::iterator::StorageIterator;
use crate::iterator::merge_order::{lemma_stamped_sorted, sorted};
use crate::kv::kv_pair::Entry;
use crate::kv::timestamped_key::TimestampedKey;
use crate::lex::{
    bytes_opt, copy_bytes, equal, lemma_lex_le_lt_transitive, lemma_lex_lt_le_transitive,
    lemma_lex_lt_transitive, lemma_lex_trichotomy, lex_le, lex_lt,
};
use crate::memory::memtable::iterator::stamped_all;
use crate::table::{
    ascending, block_at, block_entries, block_indexed, block_stored, entries_upto,
    first_keys_ascend, is_empty_table, lemma_entries_upto_index, lemma_sound_block,
    lemma_sound_bloom, lemma_sound_nonempty, may_hold, sound, starts_at, table_entries, Sst,
    SstView,
};
use crate::table::iterator::{stream_clean, stream_from, SSTIterator};
use crate::utils::share;
use std::sync::Arc;
use vstd::prelude::*;

verus! {

/// Whether one of the entries has the key.
pub open spec fn holds_key(entries: Seq<RawEntry>, key: Seq<u8>) -> bool {
    exists|j: int| 0 <= j < entries.len() && (#[trigger] entries[j]).0 == key
}

/// The value of an entry with the key, if the entries hold one.
pub open spec fn find_in(entries: Seq<RawEntry>, key: Seq<u8>) -> Option<Seq<u8>> {
    if holds_key(entries, key) {
        Some(entries[choose|j: int| 0 <= j < entries.len() && (#[trigger] entries[j]).0 == key].1)
    } else {
        None
    }
}

/// The number of entries at the start of a list whose keys are smaller than
/// `key`.
pub open spec fn smaller_count(s: Seq<RawEntry>, key: Seq<u8>) -> int
    decreases s.len(),
{
    if s.len() == 0 || !lex_lt(s[0].0, key) {
        0
    } else {
        1 + smaller_count(s.drop_first(), key)
    }
}

/// In a list with ascending keys, the entries with a key smaller than `key`
/// are the first, and their number is the count.
pub proof fn lemma_smaller_count(s: Seq<RawEntry>, key: Seq<u8>)
    requires
        ascending(s),
    ensures
        0 <= smaller_count(s, key) <= s.len(),
        forall|i: int| 0 <= i < smaller_count(s, key) ==> lex_lt((#[trigger] s[i]).0, key),
        forall|i: int| smaller_count(s, key) <= i < s.len() ==> !lex_lt((#[trigger] s[i]).0, key),
    decreases s.len(),
{
    if s.len() > 0 {
        let t = s.drop_first();
        assert forall|i: int, j: int| 0 <= i < j < t.len() implies lex_lt(
            (#[trigger] t[i]).0,
            (#[trigger] t[j]).0,
        ) by {
            assert(t[i] == s[i + 1]);
            assert(t[j] == s[j + 1]);
        }
        if lex_lt(s[0].0, key) {
            lemma_smaller_count(t, key);
            assert forall|i: int| 0 <= i < smaller_count(s, key) implies lex_lt(
                (#[trigger] s[i]).0,
                key,
            ) by {
                if i > 0 {
                    assert(s[i] == t[i - 1]);
                }
            }
            assert forall|i: int| smaller_count(s, key) <= i < s.len() implies !lex_lt(
                (#[trigger] s[i]).0,
                key,
            ) by {
                assert(s[i] == t[i - 1]);
            }
        } else {
            assert forall|i: int| 0 <= i < s.len() implies !lex_lt((#[trigger] s[i]).0, key) by {
                if i > 0 {
                    assert(lex_lt(s[0].0, s[i].0));
                    if lex_lt(s[i].0, key) {
                        lemma_lex_lt_transitive(s[0].0, s[i].0, key);
                    }
                }
            }
        }
    }
}

/// A place in a list with ascending keys before which every key is smaller
/// than `key`, and at which the key is not, is the count of the smaller
/// keys.
pub proof fn lemma_count_is(s: Seq<RawEntry>, key: Seq<u8>, p: int)
    requires
        ascending(s),
        0 <= p <= s.len(),
        forall|i: int| 0 <= i < p ==> lex_lt((#[trigger] s[i]).0, key),
        p < s.len() ==> !lex_lt(s[p].0, key),
    ensures
        smaller_count(s, key) == p,
{
    lemma_smaller_count(s, key);
    let c = smaller_count(s, key);
    if c < p {
        assert(lex_lt(s[c].0, key));
    }
    if p < c {
        assert(lex_lt(s[p].0, key));
    }
}

/// The entries of a list from the first whose key is no smaller than `key`.
pub open spec fn entries_from_key(s: Seq<RawEntry>, key: Seq<u8>) -> Seq<RawEntry> {
    s.subrange(smaller_count(s, key), s.len() as int)
}

/// The entries of a list from the first whose key is larger than `key`,
/// where the keys of the list ascend.
pub open spec fn entries_after_key(s: Seq<RawEntry>, key: Seq<u8>) -> Seq<RawEntry> {
    if entries_from_key(s, key).len() > 0 && entries_from_key(s, key)[0].0 == key {
        entries_from_key(s, key).drop_first()
    } else {
        entries_from_key(s, key)
    }
}

/// In a list with ascending keys, the value found for a key is that of the
/// first entry whose key is no smaller, where that entry has the key.
pub proof fn lemma_find_from_key(s: Seq<RawEntry>, key: Seq<u8>)
    requires
        ascending(s),
    ensures
        0 <= smaller_count(s, key) <= s.len(),
        find_in(s, key) == (if entries_from_key(s, key).len() > 0 && entries_from_key(s, key)[0].0
            == key {
            Some(entries_from_key(s, key)[0].1)
        } else {
            None
        }),
{
    lemma_smaller_count(s, key);
    let p = smaller_count(s, key);
    if p < s.len() {
        assert(entries_from_key(s, key)[0] == s[p]);
    }
    if holds_key(s, key) {
        let j = choose|j: int| 0 <= j < s.len() && (#[trigger] s[j]).0 == key;
        lemma_lex_trichotomy(key, key);
        if j < p {
            assert(lex_lt(s[j].0, key));
        }
        if p < j {
            assert(lex_lt(s[p].0, s[j].0));
        }
        assert(p == j);
        lemma_find_in_at(s, j);
    } else if p < s.len() && s[p].0 == key {
        assert(holds_key(s, key));
    }
}

/// The entries of a list with ascending keys from a key on, and those
/// after the key, given timestamp zero, are sorted; and those after the key
/// are those from the key on without an entry that has the key.
pub proof fn lemma_from_key_sorted(s: Seq<RawEntry>, key: Seq<u8>)
    requires
        ascending(s),
    ensures
        sorted(stamped_all(s)),
        sorted(stamped_all(entries_from_key(s, key))),
        sorted(stamped_all(entries_after_key(s, key))),
        stamped_all(entries_after_key(s, key)) == (if stamped_all(entries_from_key(s, key)).len()
            > 0 && stamped_all(entries_from_key(s, key))[0].key == key {
            stamped_all(entries_from_key(s, key)).drop_first()
        } else {
            stamped_all(entries_from_key(s, key))
        }),
{
    lemma_smaller_count(s, key);
    let p = smaller_count(s, key);
    let f = entries_from_key(s, key);
    let a = entries_after_key(s, key);
    assert forall|x: int, y: int| 0 <= x < y < f.len() implies lex_lt(
        (#[trigger] f[x]).0,
        (#[trigger] f[y]).0,
    ) by {
        assert(f[x] == s[p + x]);
        assert(f[y] == s[p + y]);
    }
    assert forall|x: int, y: int| 0 <= x < y < a.len() implies lex_lt(
        (#[trigger] a[x]).0,
        (#[trigger] a[y]).0,
    ) by {
        if a.len() < f.len() {
            assert(a[x] == f[x + 1]);
            assert(a[y] == f[y + 1]);
        }
    }
    lemma_stamped_sorted(s);
    lemma_stamped_sorted(f);
    lemma_stamped_sorted(a);
    if f.len() > 0 {
        assert(stamped_all(f)[0] == stamped(f[0]));
        assert(stamped_all(f.drop_first()) =~= stamped_all(f).drop_first());
    }
}

/// The key of entry `k` of block `i` of the table.
pub open spec fn key_at(v: SstView, i: int, k: int) -> Seq<u8> {
    entry_at(block_at(v, i).unwrap(), k).unwrap().0
}

/// The block and the place in it of entry `j` among the entries of the
/// first `n` blocks.
pub proof fn lemma_locate(v: SstView, n: int, j: int) -> (r: (int, int))
    requires
        0 <= j < entries_upto(v, n).len(),
    ensures
        0 <= r.0 < n,
        0 <= r.1 < block_entries(v, r.0).len(),
        j == entries_upto(v, r.0).len() + r.1,
        entries_upto(v, n)[j] == block_entries(v, r.0)[r.1],
    decreases n,
{
    if j < entries_upto(v, n - 1).len() {
        lemma_locate(v, n - 1, j)
    } else {
        (n - 1, j - entries_upto(v, n - 1).len())
    }
}

/// In a sound table that has entries, every block begins with its first
/// key, which is no larger than its last, and a block's last key is smaller
/// than the first key of every later block.
#[verifier::rlimit(30)]
pub proof fn lemma_block_chain(v: SstView, i: int, i2: int)
    requires
        sound(v),
        !is_empty_table(v),
        0 <= i <= i2 < v.metas.len(),
    ensures
        lex_le(v.metas[i].first_key, v.metas[i].last_key),
        i < i2 ==> lex_lt(v.metas[i].last_key, v.metas[i2].first_key),
        lex_le(v.metas[i].first_key, v.metas[i2].first_key),
        lex_le(v.metas[i].last_key, v.metas[i2].last_key),
    decreases i2 - i,
{
    lemma_sound_block(v, i);
    assert(block_stored(v, i) && block_indexed(v, i));
    let b = block_at(v, i).unwrap();
    let n = b.offsets.len() as int;
    crate::block::lemma_entry_at(b, 0);
    assert(entry_at(b, 0) is Some);
    assert(entry_at(b, n - 1) is Some);
    lemma_lex_trichotomy(v.metas[i].first_key, v.metas[i].last_key);
    if n > 1 {
        assert(lex_lt(entry_at(b, 0).unwrap().0, entry_at(b, n - 1).unwrap().0));
    }
    if i < i2 {
        lemma_block_chain(v, i + 1, i2);
        assert(lex_lt(v.metas[i].last_key, v.metas[i + 1].first_key));
        lemma_lex_lt_le_transitive(
            v.metas[i].last_key,
            v.metas[i + 1].first_key,
            v.metas[i2].first_key,
        );
        lemma_lex_le_lt_transitive(
            v.metas[i].first_key,
            v.metas[i].last_key,
            v.metas[i2].first_key,
        );
        lemma_lex_trichotomy(v.metas[i].first_key, v.metas[i2].first_key);
        lemma_block_chain(v, i2, i2);
        lemma_lex_lt_le_transitive(
            v.metas[i].last_key,
            v.metas[i2].first_key,
            v.metas[i2].last_key,
        );
        lemma_lex_trichotomy(v.metas[i].last_key, v.metas[i2].last_key);
    } else {
        lemma_lex_trichotomy(v.metas[i].first_key, v.metas[i].first_key);
        lemma_lex_trichotomy(v.metas[i].last_key, v.metas[i].last_key);
    }
}

/// In a sound table that has entries, the key of an entry lies between the
/// first and the last key of its block.
#[verifier::rlimit(30)]
pub proof fn lemma_key_in_block(v: SstView, i: int, k: int)
    requires
        sound(v),
        !is_empty_table(v),
        0 <= i < v.metas.len(),
        0 <= k < block_at(v, i).unwrap().offsets.len(),
    ensures
        entry_at(block_at(v, i).unwrap(), k) is Some,
        lex_le(v.metas[i].first_key, key_at(v, i, k)),
        lex_le(key_at(v, i, k), v.metas[i].last_key),
{
    lemma_sound_block(v, i);
    assert(block_stored(v, i) && block_indexed(v, i));
    let b = block_at(v, i).unwrap();
    let n = b.offsets.len() as int;
    crate::block::lemma_entry_at(b, 0);
    assert(entry_at(b, 0) is Some);
    assert(entry_at(b, k) is Some);
    assert(entry_at(b, n - 1) is Some);
    lemma_lex_trichotomy(v.metas[i].first_key, key_at(v, i, k));
    lemma_lex_trichotomy(key_at(v, i, k), v.metas[i].last_key);
    if 0 < k {
        assert(lex_lt(entry_at(b, 0).unwrap().0, entry_at(b, k).unwrap().0));
    }
    if k < n - 1 {
        assert(lex_lt(entry_at(b, k).unwrap().0, entry_at(b, n - 1).unwrap().0));
    }
}

/// In a sound table the first keys of the blocks ascend.
pub proof fn lemma_first_keys_ascend(v: SstView)
    requires
        sound(v),
    ensures
        first_keys_ascend(v.metas),
{
    if !is_empty_table(v) {
        assert forall|i: int, j: int| 0 <= i < j < v.metas.len() implies lex_lt(
            (#[trigger] v.metas[i]).first_key,
            (#[trigger] v.metas[j]).first_key,
        ) by {
            lemma_block_chain(v, i, j);
            lemma_lex_le_lt_transitive(
                v.metas[i].first_key,
                v.metas[i].last_key,
                v.metas[j].first_key,
            );
        }
    }
}

/// In a sound table an entry that stands before another has the smaller
/// key.
pub proof fn lemma_keys_in_order(v: SstView, i: int, k: int, i2: int, k2: int)
    requires
        sound(v),
        0 <= i <= i2 < v.metas.len(),
        0 <= k < block_at(v, i).unwrap().offsets.len(),
        0 <= k2 < block_at(v, i2).unwrap().offsets.len(),
        i < i2 || k < k2,
    ensures
        lex_lt(key_at(v, i, k), key_at(v, i2, k2)),
{
    if i == i2 {
        let b = block_at(v, i).unwrap();
        lemma_sound_block(v, i);
        assert(keys_ascend(b));
        assert(lex_lt(entry_at(b, k).unwrap().0, entry_at(b, k2).unwrap().0));
    } else {
        lemma_key_in_block(v, i, k);
        lemma_key_in_block(v, i2, k2);
        lemma_block_chain(v, i, i2);
        lemma_lex_le_lt_transitive(key_at(v, i, k), v.metas[i].last_key, v.metas[i2].first_key);
        lemma_lex_lt_le_transitive(key_at(v, i, k), v.metas[i2].first_key, key_at(v, i2, k2));
    }
}

/// The keys of a sound table ascend.
pub proof fn lemma_sound_ascending(v: SstView)
    requires
        sound(v),
    ensures
        ascending(table_entries(v)),
{
    let n = v.metas.len() as int;
    let all = table_entries(v);
    assert forall|x: int, y: int| 0 <= x < y < all.len() implies lex_lt(
        (#[trigger] all[x]).0,
        (#[trigger] all[y]).0,
    ) by {
        let (i, k) = lemma_locate(v, n, x);
        let (i2, k2) = lemma_locate(v, n, y);
        lemma_sound_block(v, i);
        lemma_sound_block(v, i2);
        assert(block_stored(v, i) && block_stored(v, i2));
        if i > i2 {
            lemma_entries_upto_index(v, i, i2);
        }
        if i < i2 {
            lemma_entries_upto_index(v, i2, i);
        }
        assert(entry_at(block_at(v, i).unwrap(), k) is Some);
        assert(entry_at(block_at(v, i2).unwrap(), k2) is Some);
        lemma_keys_in_order(v, i, k, i2, k2);
    }
}

/// A sound table may hold every key that it holds.
pub proof fn lemma_may_hold(v: SstView, key: Seq<u8>)
    requires
        sound(v),
        holds_key(table_entries(v), key),
    ensures
        may_hold(v, key),
{
    let n = v.metas.len() as int;
    let all = table_entries(v);
    let j = choose|j: int| 0 <= j < all.len() && (#[trigger] all[j]).0 == key;
    lemma_sound_bloom(v, j);
    let (i, k) = lemma_locate(v, n, j);
    lemma_sound_block(v, i);
    assert(block_stored(v, i));
    assert(entry_at(block_at(v, i).unwrap(), k) is Some);
    if is_empty_table(v) {
        assert(false);
    }
    lemma_key_in_block(v, i, k);
    lemma_block_chain(v, 0, i);
    lemma_block_chain(v, i, n - 1);
    if lex_lt(key, v.metas[0].first_key) {
        lemma_lex_lt_le_transitive(key, v.metas[0].first_key, v.metas[i].first_key);
    }
    if lex_lt(v.metas.last().last_key, key) {
        lemma_lex_le_lt_transitive(v.metas[i].last_key, v.metas.last().last_key, key);
    }
}

/// In a list with ascending keys, the value found for the key of an entry
/// is the value of that entry.
pub proof fn lemma_find_in_at(entries: Seq<RawEntry>, j: int)
    requires
        ascending(entries),
        0 <= j < entries.len(),
    ensures
        find_in(entries, entries[j].0) == Some(entries[j].1),
{
    let key = entries[j].0;
    assert(holds_key(entries, key));
    let c = choose|c: int| 0 <= c < entries.len() && (#[trigger] entries[c]).0 == key;
    lemma_lex_trichotomy(key, key);
    if c < j {
        assert(lex_lt(entries[c].0, entries[j].0));
    } else if j < c {
        assert(lex_lt(entries[j].0, entries[c].0));
    }
}

/// The stream from a cursor in a sound table is not cut short.
pub proof fn lemma_stream_clean(v: SstView, bi: int, b: BlockView, idx: int)
    requires
        sound(v),
    ensures
        stream_clean(v, bi, b, idx),
    decreases v.metas.len() - bi, b.offsets.len() - idx,
{
    if !(bi < 0 || bi >= v.metas.len() || idx < 0 || idx >= b.offsets.len()) {
        match entry_at(b, idx) {
            None => {},
            Some(e) => {
                if lex_lt(e.0, v.metas[bi].last_key) {
                    lemma_stream_clean(v, bi, b, idx + 1);
                } else if bi + 1 < v.metas.len() {
                    lemma_sound_block(v, bi + 1);
                    assert(block_stored(v, bi + 1));
                    lemma_stream_clean(v, bi + 1, block_at(v, bi + 1).unwrap(), 0);
                }
            },
        }
    }
}

/// The entries of a list from a place on, given timestamp zero, are the
/// entry at the place followed by those from the next place on.
pub proof fn lemma_stamped_from(all: Seq<RawEntry>, from: int)
    requires
        0 <= from < all.len(),
    ensures
        stamped_all(all.subrange(from, all.len() as int)) == seq![stamped(all[from])]
            + stamped_all(all.subrange(from + 1, all.len() as int)),
{
    assert(stamped_all(all.subrange(from, all.len() as int)) =~= seq![stamped(all[from])]
        + stamped_all(all.subrange(from + 1, all.len() as int)));
}

/// A table with an entry in one of its blocks is no empty table.
pub proof fn lemma_has_entries(v: SstView, bi: int, idx: int)
    requires
        0 <= bi < v.metas.len(),
        0 <= idx < block_at(v, bi).unwrap().offsets.len(),
    ensures
        !is_empty_table(v),
{
}

/// In a sound table that has entries, the key of an entry is smaller than
/// the last key of its block exactly where the entry is not the last of the
/// block.
#[verifier::rlimit(30)]
pub proof fn lemma_last_of_block(v: SstView, bi: int, idx: int)
    requires
        sound(v),
        0 <= bi < v.metas.len(),
        0 <= idx < block_at(v, bi).unwrap().offsets.len(),
    ensures
        lex_lt(key_at(v, bi, idx), v.metas[bi].last_key) <==> idx < block_at(
            v,
            bi,
        ).unwrap().offsets.len() - 1,
{
    let b = block_at(v, bi).unwrap();
    let len = b.offsets.len() as int;
    lemma_has_entries(v, bi, idx);
    lemma_sound_block(v, bi);
    assert(v.metas[bi].last_key == entry_at(b, len - 1).unwrap().0);
    let key = entry_at(b, idx).unwrap().0;
    let last = entry_at(b, len - 1).unwrap().0;
    if idx < len - 1 {
        assert(lex_lt(key, last)) by {
            lemma_ascend_at(b, idx, len - 1);
        }
    } else {
        assert(!lex_lt(key, last)) by {
            crate::lex::lemma_lex_lt_irreflexive(key);
        }
    }
}

/// In a block with ascending keys, an entry that stands before another has
/// the smaller key.
pub proof fn lemma_ascend_at(b: BlockView, x: int, y: int)
    requires
        keys_ascend(b),
        0 <= x < y < b.offsets.len(),
    ensures
        lex_lt(entry_at(b, x).unwrap().0, entry_at(b, y).unwrap().0),
{
}

/// Where entry `idx` of block `bi` stands among the entries of the table.
pub proof fn lemma_place_in_table(v: SstView, bi: int, idx: int)
    requires
        sound(v),
        0 <= bi < v.metas.len(),
        0 <= idx < block_at(v, bi).unwrap().offsets.len(),
    ensures
        entries_upto(v, bi).len() + idx < table_entries(v).len(),
        table_entries(v)[entries_upto(v, bi).len() + idx] == entry_at(
            block_at(v, bi).unwrap(),
            idx,
        ).unwrap(),
        entry_at(block_at(v, bi).unwrap(), idx) is Some,
        entries_upto(v, bi + 1).len() == entries_upto(v, bi).len() + block_at(
            v,
            bi,
        ).unwrap().offsets.len(),
        bi + 1 == v.metas.len() ==> table_entries(v).len() == entries_upto(v, bi).len()
            + block_at(v, bi).unwrap().offsets.len(),
{
    let b = block_at(v, bi).unwrap();
    lemma_sound_block(v, bi);
    lemma_entries_upto_index(v, v.metas.len() as int, bi);
    assert(entry_at(b, idx) is Some);
    assert(block_entries(v, bi)[idx] == entry_at(b, idx).unwrap());
}

/// In a sound table the stream from an entry is that entry and all that
/// follow it in the table.
#[verifier::rlimit(30)]
pub proof fn lemma_stream_suffix(v: SstView, bi: int, idx: int)
    requires
        sound(v),
        0 <= bi < v.metas.len(),
        0 <= idx < block_at(v, bi).unwrap().offsets.len(),
    ensures
        entries_upto(v, bi).len() + idx < table_entries(v).len(),
        stream_from(v, bi, block_at(v, bi).unwrap(), idx) == stamped_all(
            table_entries(v).subrange(
                entries_upto(v, bi).len() + idx,
                table_entries(v).len() as int,
            ),
        ),
    decreases v.metas.len() - bi, block_at(v, bi).unwrap().offsets.len() - idx,
{
    let n = v.metas.len() as int;
    let all = table_entries(v);
    let b = block_at(v, bi).unwrap();
    let len = b.offsets.len() as int;
    let from = entries_upto(v, bi).len() + idx;
    lemma_place_in_table(v, bi, idx);
    lemma_last_of_block(v, bi, idx);
    lemma_stamped_from(all, from);
    lemma_has_entries(v, bi, idx);
    let e = entry_at(b, idx).unwrap();
    if lex_lt(e.0, v.metas[bi].last_key) {
        lemma_stream_suffix(v, bi, idx + 1);
    } else if bi + 1 >= n {
        assert(stamped_all(all.subrange(from + 1, all.len() as int)) =~= Seq::<Entry>::empty());
    } else {
        lemma_sound_block(v, bi + 1);
        lemma_stream_suffix(v, bi + 1, 0);
    }
}

/// In a sound table every entry that stands before the place where a
/// search for `key` lands has a key smaller than `key`.
pub proof fn lemma_before_place(v: SstView, key: Seq<u8>, bi: int, idx: int, j: int)
    requires
        sound(v),
        starts_at(v.metas, key, bi),
        lands_at(block_at(v, bi).unwrap(), key, idx),
        0 <= j < entries_upto(v, bi).len() + idx,
        j < table_entries(v).len(),
    ensures
        lex_lt(table_entries(v)[j].0, key),
{
    let n = v.metas.len() as int;
    let all = table_entries(v);
    let (i, k) = lemma_locate(v, n, j);
    lemma_sound_block(v, i);
    lemma_sound_block(v, bi);
    let b = block_at(v, i).unwrap();
    assert(entry_at(b, k) is Some);
    assert(block_entries(v, i)[k] == entry_at(b, k).unwrap());
    if i > bi {
        lemma_entries_upto_index(v, i, bi);
        assert(false);
    }
    if i < bi {
        lemma_has_entries(v, i, k);
        lemma_key_in_block(v, i, k);
        lemma_block_chain(v, i, bi);
        lemma_lex_le_lt_transitive(key_at(v, i, k), v.metas[i].last_key, v.metas[bi].first_key);
        lemma_lex_lt_le_transitive(key_at(v, i, k), v.metas[bi].first_key, key);
    } else {
        assert(k < idx);
        assert(lex_lt(entry_at(b, k).unwrap().0, key));
    }
}

/// In a sound table the place where a search for `key` lands is the place,
/// among the entries of the table, of the first entry whose key is no
/// smaller than `key`: the end of the block in which the search starts is
/// the start of the next.
pub proof fn lemma_count_at(v: SstView, key: Seq<u8>, bi: int, idx: int)
    requires
        sound(v),
        starts_at(v.metas, key, bi),
        lands_at(block_at(v, bi).unwrap(), key, idx),
    ensures
        smaller_count(table_entries(v), key) == entries_upto(v, bi).len() + idx,
        entries_upto(v, bi + 1).len() == entries_upto(v, bi).len() + block_at(
            v,
            bi,
        ).unwrap().offsets.len(),
        bi + 1 == v.metas.len() ==> table_entries(v).len() == entries_upto(v, bi + 1).len(),
{
    let n = v.metas.len() as int;
    let all = table_entries(v);
    let b = block_at(v, bi).unwrap();
    let p = entries_upto(v, bi).len() + idx;
    lemma_sound_block(v, bi);
    lemma_sound_ascending(v);
    lemma_entries_upto_index(v, n, bi);
    assert(p <= all.len());
    assert forall|j: int| 0 <= j < p implies lex_lt((#[trigger] all[j]).0, key) by {
        lemma_before_place(v, key, bi, idx, j);
    }
    if p < all.len() {
        if idx < b.offsets.len() {
            lemma_place_in_table(v, bi, idx);
            assert(lex_le(key, entry_at(b, idx).unwrap().0));
        } else {
            assert(bi + 1 < n);
            lemma_sound_block(v, bi + 1);
            let c = block_at(v, bi + 1).unwrap();
            if is_empty_table(v) {
                assert(false);
            }
            lemma_place_in_table(v, bi + 1, 0);
            crate::block::lemma_entry_at(c, 0);
            assert(lex_lt(key, v.metas[bi + 1].first_key));
            lemma_lex_trichotomy(key, v.metas[bi + 1].first_key);
        }
    }
    lemma_count_is(all, key, p);
}

/// In a sound table the stream from where a search for `key` lands, or
/// from the start of the next block where it lands at the end of a block,
/// is the entries of the table from the first whose key is no smaller than
/// `key`.
pub proof fn lemma_seek_stream(v: SstView, key: Seq<u8>, bi: int, idx: int)
    requires
        sound(v),
        starts_at(v.metas, key, bi),
        lands_at(block_at(v, bi).unwrap(), key, idx),
    ensures
        idx < block_at(v, bi).unwrap().offsets.len() ==> stream_from(
            v,
            bi,
            block_at(v, bi).unwrap(),
            idx,
        ) == stamped_all(entries_from_key(table_entries(v), key)),
        idx >= block_at(v, bi).unwrap().offsets.len() && bi + 1 < v.metas.len() ==> stream_from(
            v,
            bi + 1,
            block_at(v, bi + 1).unwrap(),
            0,
        ) == stamped_all(entries_from_key(table_entries(v), key)),
        idx >= block_at(v, bi).unwrap().offsets.len() && bi + 1 >= v.metas.len() ==> stream_from(
            v,
            bi,
            block_at(v, bi).unwrap(),
            idx,
        ) == stamped_all(entries_from_key(table_entries(v), key)),
{
    let n = v.metas.len() as int;
    let all = table_entries(v);
    let b = block_at(v, bi).unwrap();
    lemma_count_at(v, key, bi, idx);
    lemma_sound_block(v, bi);
    if idx < b.offsets.len() {
        lemma_stream_suffix(v, bi, idx);
    } else if bi + 1 < n {
        lemma_sound_block(v, bi + 1);
        let c = block_at(v, bi + 1).unwrap();
        if c.offsets.len() > 0 {
            lemma_stream_suffix(v, bi + 1, 0);
        } else {
            assert(is_empty_table(v) || block_indexed(v, bi + 1));
            assert(false);
        }
    } else {
        assert(entries_from_key(all, key) =~= Seq::<RawEntry>::empty());
        assert(stamped_all(entries_from_key(all, key)) =~= Seq::<Entry>::empty());
    }
}

/// In a sound table the stream from the first entry is the table.
pub proof fn lemma_stream_all(v: SstView)
    requires
        sound(v),
    ensures
        stream_from(v, 0, block_at(v, 0).unwrap(), 0) == stamped_all(table_entries(v)),
{
    let all = table_entries(v);
    lemma_sound_nonempty(v);
    lemma_sound_block(v, 0);
    if block_at(v, 0).unwrap().offsets.len() > 0 {
        lemma_stream_suffix(v, 0, 0);
        assert(entries_upto(v, 0).len() == 0);
        assert(all.subrange(0, all.len() as int) =~= all);
    } else {
        assert(is_empty_table(v));
        assert(entries_upto(v, 0) =~= Seq::<RawEntry>::empty());
        assert(block_entries(v, 0) =~= Seq::<RawEntry>::empty());
        assert(all =~= Seq::<RawEntry>::empty());
        assert(stamped_all(all) =~= Seq::<Entry>::empty());
    }
}

/// The value under `key` in a sound table, found through the bloom filter,
/// the key range, the block index and a search in one block.
#[verifier::rlimit(30)]
pub fn find_in_table(sst: &Arc<Sst>, key: &[u8]) -> (r: Result<Option<Vec<u8>>, LsmError>)
    requires
        sound(sst@),
    ensures
        r matches Ok(o) && bytes_opt(o) == find_in(table_entries(sst@), key@),
{
    let ghost v = sst@;
    proof {
        lemma_sound_nonempty(v);
        if holds_key(table_entries(v), key@) {
            lemma_may_hold(v, key@);
        }
    }
    if !sst.maybe_contains_key(key) {
        return Ok(None);
    }
    let found = match SSTIterator::create_and_seek_to_key(
        share(sst),
        TimestampedKey::new(copy_bytes(key)),
    ) {
        Ok(mut it) => {
            proof {
                lemma_sound_ascending(v);
                lemma_find_from_key(table_entries(v), key@);
                lemma_stream_clean(v, it.block_index(), it.block(), it.entry_index());
            }
            it.peek()
        },
        Err(e) => {
            proof {
                let bad = choose|bad: int| 0 <= bad < v.metas.len() && block_at(v, bad) is None;
                lemma_sound_block(v, bad);
            }
            return Err(e);
        },
    };
    match found {
        Some(kv) => {
            if equal(kv.key.key_ref().as_slice(), key) {
                Ok(Some(kv.value))
            } else {
                Ok(None)
            }
        },
        None => Ok(None),
    }
}

} // verus!
