use crate::kv::timestamped_key::{stamped_lt, TimestampedKey};
use crate::lex::{
    copy_bytes, equal, lemma_lex_lt_irreflexive, lemma_lex_lt_transitive, lemma_lex_trichotomy,
};
use vstd::prelude::*;
use vstd::std_specs::cmp::PartialEqSpecImpl;

verus! {

/// What an entry holds, as mathematics: the key's bytes and timestamp, and
/// the value's bytes. An empty value marks a deleted key.
pub struct Entry {
    pub key: Seq<u8>,
    pub timestamp: usize,
    pub value: Seq<u8>,
}

/// Whether entry `a` sorts strictly before entry `b`: by key bytes, and for
/// equal keys the larger timestamp first. The values play no part.
pub open spec fn entry_before(a: Entry, b: Entry) -> bool {
    stamped_lt(a.key, a.timestamp, b.key, b.timestamp)
}

/// No entry sorts before itself.
pub proof fn lemma_entry_before_irreflexive(a: Entry)
    ensures
        !entry_before(a, a),
{
    lemma_lex_lt_irreflexive(a.key);
}

/// Of two entries one sorts before the other, or they agree in key and
/// timestamp; and never both sort before each other.
pub proof fn lemma_entry_order_total(a: Entry, b: Entry)
    ensures
        entry_before(a, b) || entry_before(b, a) || (a.key == b.key && a.timestamp == b.timestamp),
        !(entry_before(a, b) && entry_before(b, a)),
{
    lemma_lex_trichotomy(a.key, b.key);
}

/// The order of entries is transitive.
pub proof fn lemma_entry_before_transitive(a: Entry, b: Entry, c: Entry)
    requires
        entry_before(a, b),
        entry_before(b, c),
    ensures
        entry_before(a, c),
{
    lemma_lex_trichotomy(a.key, b.key);
    lemma_lex_trichotomy(b.key, c.key);
    lemma_lex_trichotomy(a.key, c.key);
    if crate::lex::lex_lt(a.key, b.key) && crate::lex::lex_lt(b.key, c.key) {
        lemma_lex_lt_transitive(a.key, b.key, c.key);
    }
}

/// Where `a` does not sort after `b`, and `b` not after `c`, `a` does not
/// sort after `c`.
pub proof fn lemma_entry_not_after_transitive(a: Entry, b: Entry, c: Entry)
    requires
        !entry_before(b, a),
        !entry_before(c, b),
    ensures
        !entry_before(c, a),
{
    lemma_entry_order_total(a, b);
    lemma_entry_order_total(b, c);
    lemma_entry_order_total(a, c);
    if entry_before(c, a) {
        if entry_before(a, b) {
            lemma_entry_before_transitive(c, a, b);
        } else if entry_before(b, c) {
            lemma_entry_before_transitive(b, c, a);
        }
    }
}

/// A key with its value.
#[derive(Debug, Eq)]
pub struct KeyValuePair {
    pub key: TimestampedKey,
    pub value: Vec<u8>,
}

impl View for KeyValuePair {
    type V = Entry;

    open spec fn view(&self) -> Entry {
        Entry { key: self.key.bytes(), timestamp: self.key.timestamp(), value: self.value@ }
    }
}

/// The view of an optional entry.
pub open spec fn view_opt(o: Option<KeyValuePair>) -> Option<Entry> {
    match o {
        Some(kv) => Some(kv@),
        None => None,
    }
}

impl Clone for KeyValuePair {
    fn clone(&self) -> (r: Self)
        ensures
            r@ == self@,
    {
        KeyValuePair { key: self.key.clone(), value: copy_bytes(self.value.as_slice()) }
    }
}

impl PartialEq for KeyValuePair {
    fn eq(&self, other: &Self) -> (r: bool) {
        self.key.eq(&other.key) && equal(self.value.as_slice(), other.value.as_slice())
    }
}

impl PartialEqSpecImpl for KeyValuePair {
    open spec fn obeys_eq_spec() -> bool {
        true
    }

    open spec fn eq_spec(&self, other: &Self) -> bool {
        self@ == other@
    }
}

} // verus!
