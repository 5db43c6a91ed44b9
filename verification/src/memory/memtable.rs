pub mod iterator;

use crate::block::RawEntry;
use crate::block::builder::{add_clamped, clamp_usize};
use crate::error::LsmError;
use crate::kv::kv_pair::KeyValuePair;
use crate::kv::timestamped_key::TimestampedKey;
use crate::lex::{copy_bytes, lemma_lex_trichotomy, lex_lt};
use crate::memory::memtable::iterator::MemTableIterator;
use crate::table::ascending;
use crate::table::builder::{added_all, lemma_added_all_stops, SSTBuilder};
use crate::utils::{above_lower, below_upper};
use crossbeam_skiplist::SkipMap;
use std::ops::Bound;
use vstd::prelude::*;

verus! {

/// The ordered map of `crossbeam_skiplist`.
#[verifier::external_type_specification]
#[verifier::external_body]
#[verifier::reject_recursive_types(K)]
#[verifier::reject_recursive_types(V)]
pub struct ExSkipMap<K, V>(SkipMap<K, V>);

/// The keys of an ordered map of byte strings, each with its value.
pub uninterp spec fn skipmap_entries(m: SkipMap<Vec<u8>, Vec<u8>>) -> Map<Seq<u8>, Seq<u8>>;

/// A list of keys and values as mathematics.
pub open spec fn raw_entries(items: Seq<(Vec<u8>, Vec<u8>)>) -> Seq<RawEntry> {
    Seq::new(items.len(), |i: int| (items[i].0@, items[i].1@))
}

/// `s` lists, in ascending key order, the entries of `map` whose keys lie
/// within the bounds.
pub open spec fn lists_range(
    map: Map<Seq<u8>, Seq<u8>>,
    lower: Bound<&[u8]>,
    upper: Bound<&[u8]>,
    s: Seq<RawEntry>,
) -> bool {
    &&& ascending(s)
    &&& forall|i: int|
        0 <= i < s.len() ==> {
            &&& map.contains_key((#[trigger] s[i]).0)
            &&& map[s[i].0] == s[i].1
            &&& above_lower(lower, s[i].0)
            &&& below_upper(upper, s[i].0)
        }
    &&& forall|k: Seq<u8>|
        #[trigger] map.contains_key(k) && above_lower(lower, k) && below_upper(upper, k)
            ==> exists|i: int| 0 <= i < s.len() && (#[trigger] s[i]).0 == k
}

/// The map without entries.
pub open spec fn no_entries() -> Map<Seq<u8>, Seq<u8>> {
    Map::empty()
}

/// The entries of `map` in ascending key order.
pub open spec fn sorted_entries(map: Map<Seq<u8>, Seq<u8>>) -> Seq<RawEntry> {
    choose|s: Seq<RawEntry>| lists_range(map, Bound::Unbounded, Bound::Unbounded, s)
}

/// Two lists of the same range of a map agree up to any position that is
/// within the first.
pub proof fn lemma_lists_range_agree(
    map: Map<Seq<u8>, Seq<u8>>,
    lower: Bound<&[u8]>,
    upper: Bound<&[u8]>,
    s1: Seq<RawEntry>,
    s2: Seq<RawEntry>,
    i: int,
)
    requires
        lists_range(map, lower, upper, s1),
        lists_range(map, lower, upper, s2),
        0 <= i < s1.len(),
    ensures
        i < s2.len(),
        s1[i] == s2[i],
    decreases i,
{
    if i > 0 {
        lemma_lists_range_agree(map, lower, upper, s1, s2, i - 1);
    }
    assert forall|x: int| 0 <= x < i implies x < s2.len() && s1[x] == s2[x] by {
        lemma_lists_range_agree(map, lower, upper, s1, s2, x);
    }
    let k = s1[i].0;
    assert(map.contains_key(k));
    let j = choose|j: int| 0 <= j < s2.len() && (#[trigger] s2[j]).0 == k;
    if j < i {
        assert(s1[j] == s2[j]);
        assert(lex_lt(s1[j].0, s1[i].0));
        lemma_lex_trichotomy(s1[j].0, s1[i].0);
    }
    if j > i {
        let k2 = s2[i].0;
        assert(map.contains_key(k2));
        let j2 = choose|j2: int| 0 <= j2 < s1.len() && (#[trigger] s1[j2]).0 == k2;
        assert(lex_lt(s2[i].0, s2[j].0));
        if j2 < i {
            assert(s1[j2] == s2[j2]);
            assert(lex_lt(s2[j2].0, s2[i].0));
            lemma_lex_trichotomy(s2[j2].0, s2[i].0);
        } else if j2 > i {
            assert(lex_lt(s1[i].0, s1[j2].0));
            lemma_lex_trichotomy(k, k2);
        } else {
            lemma_lex_trichotomy(k, k2);
        }
    }
    assert(j == i);
    assert(s1[i].1 == map[k]);
    assert(s2[i].1 == map[k]);
}

/// A range of a map has only one list.
pub proof fn lemma_lists_range_unique(
    map: Map<Seq<u8>, Seq<u8>>,
    lower: Bound<&[u8]>,
    upper: Bound<&[u8]>,
    s1: Seq<RawEntry>,
    s2: Seq<RawEntry>,
)
    requires
        lists_range(map, lower, upper, s1),
        lists_range(map, lower, upper, s2),
    ensures
        s1 == s2,
{
    if s1.len() > 0 {
        lemma_lists_range_agree(map, lower, upper, s1, s2, s1.len() - 1);
    }
    if s2.len() > 0 {
        lemma_lists_range_agree(map, lower, upper, s2, s1, s2.len() - 1);
    }
    assert forall|i: int| 0 <= i < s1.len() implies s1[i] == s2[i] by {
        lemma_lists_range_agree(map, lower, upper, s1, s2, i);
    }
    assert(s1 =~= s2);
}

/// `SkipMap::new`: an empty map.
#[verifier::external_body]
fn skipmap_new() -> (m: SkipMap<Vec<u8>, Vec<u8>>)
    ensures
        skipmap_entries(m) == no_entries(),
{
    SkipMap::new()
}

/// `SkipMap::get`: a copy of the value stored under `key`, if there is one.
#[verifier::external_body]
fn skipmap_get(m: &SkipMap<Vec<u8>, Vec<u8>>, key: &[u8]) -> (r: Option<Vec<u8>>)
    ensures
        match r {
            Some(v) => skipmap_entries(*m).contains_key(key@) && skipmap_entries(*m)[key@] == v@,
            None => !skipmap_entries(*m).contains_key(key@),
        },
{
    m.get(key).map(|entry| entry.value().clone())
}

/// `SkipMap::insert`: stores `value` under `key`, in place of any value that
/// was stored under it.
#[verifier::external_body]
fn skipmap_insert(m: &mut SkipMap<Vec<u8>, Vec<u8>>, key: Vec<u8>, value: Vec<u8>)
    ensures
        skipmap_entries(*final(m)) == skipmap_entries(*old(m)).insert(key@, value@),
{
    m.insert(key, value);
}

/// `SkipMap::range`, walked to its end: copies of the entries whose keys lie
/// within the bounds, in ascending order of their keys, which is the
/// lexicographic order of their bytes.
#[verifier::external_body]
fn skipmap_range(
    m: &SkipMap<Vec<u8>, Vec<u8>>,
    lower: Bound<&[u8]>,
    upper: Bound<&[u8]>,
) -> (r: Vec<(Vec<u8>, Vec<u8>)>)
    ensures
        lists_range(skipmap_entries(*m), lower, upper, raw_entries(r@)),
{
    m.range::<[u8], _>((lower, upper)).map(|entry| (entry.key().clone(), entry.value().clone()))
        .collect()
}

/// What a memtable holds: its id, its entries, the accumulated size of what
/// was written to it, and whether it can still be written to.
pub struct MemTableView {
    pub id: usize,
    pub map: Map<Seq<u8>, Seq<u8>>,
    pub size_bytes: usize,
    pub mutable: bool,
}

/// The in-memory ordered map that receives writes until it is frozen.
pub struct MemTable {
    id: usize,
    entries: SkipMap<Vec<u8>, Vec<u8>>,
    size_bytes: usize,
    mutable: bool,
}

impl View for MemTable {
    type V = MemTableView;

    closed spec fn view(&self) -> MemTableView {
        MemTableView {
            id: self.id,
            map: skipmap_entries(self.entries),
            size_bytes: self.size_bytes,
            mutable: self.mutable,
        }
    }
}

impl Clone for MemTable {
    /// A memtable with the same id, entries, size and mutability. The copy
    /// has a map of its own.
    fn clone(&self) -> (r: Self)
        ensures
            r@ == self@,
    {
        let items = skipmap_range(&self.entries, Bound::Unbounded, Bound::Unbounded);
        let ghost s = raw_entries(items@);
        let ghost map = self@.map;
        let mut entries = skipmap_new();
        let mut i: usize = 0;
        while i < items.len()
            invariant
                i <= items@.len(),
                s == raw_entries(items@),
                lists_range(map, Bound::Unbounded, Bound::Unbounded, s),
                forall|k: Seq<u8>|
                    #[trigger] skipmap_entries(entries).contains_key(k) ==> map.contains_key(k)
                        && skipmap_entries(entries)[k] == map[k],
                forall|j: int|
                    0 <= j < i ==> skipmap_entries(entries).contains_key((#[trigger] s[j]).0),
            decreases items@.len() - i,
        {
            let ghost before = skipmap_entries(entries);
            skipmap_insert(
                &mut entries,
                copy_bytes(items[i].0.as_slice()),
                copy_bytes(items[i].1.as_slice()),
            );
            proof {
                assert(map.contains_key(s[i as int].0));
                assert forall|j: int| 0 <= j < i + 1 implies skipmap_entries(
                    entries,
                ).contains_key((#[trigger] s[j]).0) by {
                    if j < i {
                        assert(before.contains_key(s[j].0));
                    }
                }
            }
            i += 1;
        }
        proof {
            assert forall|k: Seq<u8>| map.contains_key(k) implies skipmap_entries(
                entries,
            ).contains_key(k) by {
                let j = choose|j: int| 0 <= j < s.len() && (#[trigger] s[j]).0 == k;
                assert(skipmap_entries(entries).contains_key(s[j].0));
            }
            assert(skipmap_entries(entries) =~= map);
        }
        Self { id: self.id, entries, size_bytes: self.size_bytes, mutable: self.mutable }
    }
}

impl MemTable {
    /// An empty, mutable memtable.
    pub fn new(id: usize) -> (m: Self)
        ensures
            m@ == (MemTableView {
                id,
                map: no_entries(),
                size_bytes: 0,
                mutable: true,
            }),
    {
        Self { id, entries: skipmap_new(), size_bytes: 0, mutable: true }
    }

    /// The value stored under `key`, if there is one.
    pub fn get(&self, key: &[u8]) -> (r: Option<Vec<u8>>)
        ensures
            match r {
                Some(v) => self@.map.contains_key(key@) && self@.map[key@] == v@,
                None => !self@.map.contains_key(key@),
            },
    {
        skipmap_get(&self.entries, key)
    }

    /// Stores `value` under `key` and adds their lengths to the size. A
    /// frozen memtable refuses the write and stays as it is.
    pub fn put(&mut self, key: &[u8], value: &[u8]) -> (r: Result<(), LsmError>)
        ensures
            r == (if old(self)@.mutable {
                Ok::<(), LsmError>(())
            } else {
                Err(LsmError::MemtableImmutable)
            }),
            r is Err ==> final(self)@ == old(self)@,
            r is Ok ==> final(self)@ == (MemTableView {
                map: old(self)@.map.insert(key@, value@),
                size_bytes: clamp_usize(old(self)@.size_bytes + key@.len() + value@.len()),
                ..old(self)@
            }),
    {
        if !self.mutable {
            return Err(LsmError::MemtableImmutable);
        }
        skipmap_insert(&mut self.entries, copy_bytes(key), copy_bytes(value));
        self.size_bytes = add_clamped(self.size_bytes, add_clamped(key.len(), value.len()));
        Ok(())
    }

    /// A cursor over the entries whose keys lie within the bounds.
    pub fn scan(&self, lower: Bound<&[u8]>, upper: Bound<&[u8]>) -> (it: MemTableIterator)
        ensures
            it.wf(),
            lists_range(self@.map, lower, upper, it.remaining()),
    {
        MemTableIterator::new(self, lower, upper)
    }

    /// The id of the memtable.
    pub fn get_id(&self) -> (r: usize)
        ensures
            r == self@.id,
    {
        self.id
    }

    /// The accumulated size of what was written.
    pub fn get_size_bytes(&self) -> (r: usize)
        ensures
            r == self@.size_bytes,
    {
        self.size_bytes
    }

    /// Whether the memtable can still be written to.
    pub fn is_mutable(&self) -> (r: bool)
        ensures
            r == self@.mutable,
    {
        self.mutable
    }

    /// Makes the memtable immutable. Fails, and changes nothing, where it
    /// is already frozen.
    pub fn freeze(&mut self) -> (r: Result<(), LsmError>)
        ensures
            r == (if old(self)@.mutable {
                Ok::<(), LsmError>(())
            } else {
                Err(LsmError::MemtableImmutable)
            }),
            final(self)@ == (MemTableView { mutable: false, ..old(self)@ }),
    {
        if !self.mutable {
            return Err(LsmError::MemtableImmutable);
        }
        self.mutable = false;
        Ok(())
    }

    /// The entries within the bounds, in ascending key order.
    pub(crate) fn range(&self, lower: Bound<&[u8]>, upper: Bound<&[u8]>) -> (r: Vec<
        (Vec<u8>, Vec<u8>),
    >)
        ensures
            lists_range(self@.map, lower, upper, raw_entries(r@)),
    {
        skipmap_range(&self.entries, lower, upper)
    }

    /// Adds the entries, in ascending key order, to `sst_builder`, and stops
    /// at the first that it refuses: it fails where the builder cannot take
    /// all of them one after the other.
    pub fn flush(&self, sst_builder: &mut SSTBuilder) -> (r: Result<(), LsmError>)
        requires
            old(sst_builder).wf(),
        ensures
            final(sst_builder).wf(),
            final(sst_builder).target() == old(sst_builder).target(),
            r is Err ==> r->Err_0 == LsmError::SizeOverflow,
            r is Ok <==> added_all(
                old(sst_builder).state(),
                sorted_entries(self@.map),
                sorted_entries(self@.map).len() as int,
            ) is Some,
            added_all(
                old(sst_builder).state(),
                sorted_entries(self@.map),
                final(sst_builder).entries().len() - old(sst_builder).entries().len(),
            ) == Some(final(sst_builder).state()),
            lists_range(
                self@.map,
                Bound::Unbounded,
                Bound::Unbounded,
                sorted_entries(self@.map),
            ),
            r is Ok ==> final(sst_builder).entries() == old(sst_builder).entries()
                + sorted_entries(self@.map),
            r is Err ==> final(sst_builder).entries().len() - old(sst_builder).entries().len()
                < sorted_entries(self@.map).len(),
            final(sst_builder).entries() == old(sst_builder).entries() + sorted_entries(
                self@.map,
            ).subrange(
                0,
                final(sst_builder).entries().len() - old(sst_builder).entries().len(),
            ),
    {
        let items = skipmap_range(&self.entries, Bound::Unbounded, Bound::Unbounded);
        let ghost s = raw_entries(items@);
        proof {
            lemma_lists_range_unique(
                self@.map,
                Bound::Unbounded,
                Bound::Unbounded,
                s,
                sorted_entries(self@.map),
            );
        }
        let mut i: usize = 0;
        assert(old(sst_builder).entries() + s.subrange(0, 0) =~= old(sst_builder).entries());
        while i < items.len()
            invariant
                i <= items@.len(),
                s == raw_entries(items@),
                s == sorted_entries(self@.map),
                lists_range(self@.map, Bound::Unbounded, Bound::Unbounded, s),
                added_all(old(sst_builder).state(), s, i as int) == Some(sst_builder.state()),
                sst_builder.wf(),
                sst_builder.target() == old(sst_builder).target(),
                sst_builder.entries() == old(sst_builder).entries() + s.subrange(0, i as int),
            decreases items@.len() - i,
        {
            let kv = KeyValuePair {
                key: TimestampedKey::new(copy_bytes(items[i].0.as_slice())),
                value: copy_bytes(items[i].1.as_slice()),
            };
            match sst_builder.add(kv) {
                Err(e) => {
                    proof {
                        lemma_added_all_stops(old(sst_builder).state(), s, i + 1, s.len() as int);
                    }
                    return Err(e);
                },
                Ok(()) => {
                    assert(s.subrange(0, i as int).push(s[i as int]) =~= s.subrange(0, i + 1));
                    assert(sst_builder.entries() =~= old(sst_builder).entries() + s.subrange(
                        0,
                        i + 1,
                    ));
                },
            }
            i += 1;
        }
        assert(s.subrange(0, s.len() as int) =~= s);
        Ok(())
    }
}

} // verus!
