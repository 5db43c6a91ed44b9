use crate::iterator::StorageIterator;
use crate::kv::kv_pair::{Entry, KeyValuePair};
use crate::kv::timestamped_key::{stamped_lt, TimestampedKey};
use crate::lex::copy_bytes;
use std::ops::Bound;
use vstd::prelude::*;

verus! {

/// An upper bound as mathematics: the bytes and the timestamp of its key.
pub open spec fn bound_view(b: Bound<TimestampedKey>) -> Bound<(Seq<u8>, usize)> {
    match b {
        Bound::Included(k) => Bound::Included((k.bytes(), k.timestamp())),
        Bound::Excluded(k) => Bound::Excluded((k.bytes(), k.timestamp())),
        Bound::Unbounded => Bound::Unbounded,
    }
}

/// Whether an entry does not exceed an upper bound.
pub open spec fn within(upper: Bound<(Seq<u8>, usize)>, e: Entry) -> bool {
    match upper {
        Bound::Included(u) => !stamped_lt(u.0, u.1, e.key, e.timestamp),
        Bound::Excluded(u) => stamped_lt(e.key, e.timestamp, u.0, u.1),
        Bound::Unbounded => true,
    }
}

/// The entries of `s` before the first that exceeds the upper bound.
pub open spec fn bounded_prefix(s: Seq<Entry>, upper: Bound<(Seq<u8>, usize)>) -> Seq<Entry>
    decreases s.len(),
{
    if s.len() == 0 || !within(upper, s[0]) {
        Seq::empty()
    } else {
        seq![s[0]] + bounded_prefix(s.drop_first(), upper)
    }
}

/// The bounded prefix of a list is no longer than the list.
pub proof fn lemma_bounded_prefix_len(s: Seq<Entry>, upper: Bound<(Seq<u8>, usize)>)
    ensures
        bounded_prefix(s, upper).len() <= s.len(),
    decreases s.len(),
{
    if s.len() > 0 && within(upper, s[0]) {
        lemma_bounded_prefix_len(s.drop_first(), upper);
    }
}

/// A stream cut off before its first entry that exceeds an upper bound.
pub struct BoundedIterator<T> {
    sub_iterator: T,
    upper_bound: Bound<TimestampedKey>,
}

impl<T: StorageIterator> BoundedIterator<T> {
    /// The stream that is cut off.
    pub closed spec fn inner(&self) -> T {
        self.sub_iterator
    }

    /// The upper bound.
    pub closed spec fn upper(&self) -> Bound<(Seq<u8>, usize)> {
        bound_view(self.upper_bound)
    }

    /// The stream `sub_iterator` cut off at `bound`, a key with timestamp
    /// zero.
    pub fn new(sub_iterator: T, bound: Bound<&[u8]>) -> (it: Self)
        ensures
            it.inner() == sub_iterator,
            it.upper() == (match bound {
                Bound::Included(k) => Bound::Included((k@, 0usize)),
                Bound::Excluded(k) => Bound::Excluded((k@, 0usize)),
                Bound::Unbounded => Bound::Unbounded,
            }),
    {
        let upper_bound = match bound {
            Bound::Included(k) => Bound::Included(TimestampedKey::new(copy_bytes(k))),
            Bound::Excluded(k) => Bound::Excluded(TimestampedKey::new(copy_bytes(k))),
            Bound::Unbounded => Bound::Unbounded,
        };
        Self { sub_iterator, upper_bound }
    }

    /// Whether `kv` does not exceed the upper bound.
    fn admits(&self, kv: &KeyValuePair) -> (r: bool)
        ensures
            r == within(self.upper(), kv@),
    {
        match &self.upper_bound {
            Bound::Included(upper_key) => !upper_key.is_before(&kv.key),
            Bound::Excluded(upper_key) => kv.key.is_before(upper_key),
            Bound::Unbounded => true,
        }
    }
}

impl<T: StorageIterator> StorageIterator for BoundedIterator<T> {
    open spec fn inv(&self) -> bool {
        self.inner().inv()
    }

    open spec fn pending(&self) -> Seq<Entry> {
        bounded_prefix(self.inner().pending(), self.upper())
    }

    open spec fn ends_cleanly(&self) -> bool {
        bounded_prefix(self.inner().pending(), self.upper()).len() < self.inner().pending().len()
            || self.inner().ends_cleanly()
    }

    fn peek(&mut self) -> (r: Option<KeyValuePair>)
        ensures
            final(self).upper() == old(self).upper(),
            final(self).inner().pending() == old(self).inner().pending(),
            final(self).inner().ends_cleanly() == old(self).inner().ends_cleanly(),
    {
        proof {
            lemma_bounded_prefix_len(self.inner().pending(), self.upper());
        }
        match self.sub_iterator.peek() {
            Some(current_kv) => {
                if self.admits(&current_kv) {
                    Some(current_kv)
                } else {
                    None
                }
            },
            None => None,
        }
    }

    fn is_valid(&self) -> (r: bool) {
        proof {
            lemma_bounded_prefix_len(self.inner().pending(), self.upper());
        }
        self.sub_iterator.is_valid()
    }

    fn next(&mut self) -> (r: Option<KeyValuePair>)
        ensures
            final(self).upper() == old(self).upper(),
            final(self).inner().pending() == (if old(self).pending().len() > 0 {
                old(self).inner().pending().drop_first()
            } else {
                old(self).inner().pending()
            }),
            final(self).inner().ends_cleanly() == old(self).inner().ends_cleanly(),
    {
        proof {
            lemma_bounded_prefix_len(self.inner().pending(), self.upper());
        }
        match self.sub_iterator.peek() {
            Some(current_kv) => {
                if self.admits(&current_kv) {
                    self.sub_iterator.next()
                } else {
                    None
                }
            },
            None => None,
        }
    }
}

} // verus!
