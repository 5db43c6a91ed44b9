use crate::iterator::StorageIterator;
use crate::kv::kv_pair::{view_opt, Entry, KeyValuePair};
use crate::kv::timestamped_key::TimestampedKey;
use crate::utils::{decimal, decimal_of};
use vstd::prelude::*;

verus! {

/// A stream that yields one entry a set number of times and is cut short
/// after the last: a stand-in for a source that fails.
pub struct TestIterator {
    is_valid: bool,
    is_valid_count: usize,
    kv: KeyValuePair,
}

/// The letter `letter` followed by the decimal digits of `id`.
pub open spec fn labelled(letter: u8, id: nat) -> Seq<u8> {
    seq![letter] + decimal_of(id)
}

/// The letter `letter` followed by the decimal digits of `id`.
fn label(letter: u8, id: usize) -> (r: Vec<u8>)
    ensures
        r@ == labelled(letter, id as nat),
{
    let mut r: Vec<u8> = Vec::new();
    r.push(letter);
    let mut digits = decimal(id);
    r.append(&mut digits);
    r
}

impl TestIterator {
    /// The entry that the stream yields.
    pub closed spec fn entry(&self) -> Entry {
        self.kv@
    }

    /// How many times the stream has yet to yield its entry.
    pub closed spec fn count(&self) -> nat {
        self.is_valid_count as nat
    }

    /// The stream's invariant: it is valid while it has yet to yield.
    pub closed spec fn wf(&self) -> bool {
        self.is_valid == (self.is_valid_count > 0)
    }

    /// The stream that yields `is_valid_count` times the entry with key
    /// `k` and value `v`, each followed by the decimal digits of `id`.
    pub fn new(id: usize, is_valid_count: usize) -> (it: Self)
        ensures
            it.wf(),
            it.count() == is_valid_count,
            it.entry() == (Entry {
                key: labelled(107, id as nat),
                timestamp: 0,
                value: labelled(118, id as nat),
            }),
    {
        let kv = KeyValuePair { key: TimestampedKey::new(label(107, id)), value: label(118, id) };
        Self { is_valid: is_valid_count > 0, is_valid_count, kv }
    }
}

impl StorageIterator for TestIterator {
    open spec fn inv(&self) -> bool {
        self.wf()
    }

    open spec fn pending(&self) -> Seq<Entry> {
        Seq::new(self.count(), |i: int| self.entry())
    }

    open spec fn ends_cleanly(&self) -> bool {
        false
    }

    fn peek(&mut self) -> (r: Option<KeyValuePair>)
        ensures
            view_opt(r) == Some(old(self).entry()),
            final(self).entry() == old(self).entry(),
            final(self).count() == old(self).count(),
    {
        Some(self.kv.clone())
    }

    fn is_valid(&self) -> (r: bool) {
        self.is_valid
    }

    fn next(&mut self) -> (r: Option<KeyValuePair>)
        ensures
            final(self).entry() == old(self).entry(),
            final(self).count() == (if old(self).count() > 0 {
                (old(self).count() - 1) as nat
            } else {
                0
            }),
    {
        if !self.is_valid {
            return None;
        }
        self.is_valid_count -= 1;
        if self.is_valid_count == 0 {
            self.is_valid = false;
        }
        assert(self.pending() =~= old(self).pending().drop_first());
        Some(self.kv.clone())
    }
}

} // verus!
