//! The interface of the engine's entry streams, and the streams that
//! compose others.

pub mod bounded_iterator;
pub mod merge_iterator;
pub mod merge_order;
pub mod test_iterator;
pub mod two_merge_iterator;

use crate::kv::kv_pair::{view_opt, Entry, KeyValuePair};
use vstd::prelude::*;

verus! {

/// A stream of entries that can be looked at before it is advanced.
///
/// A stream is described by the entries it has yet to yield and by how it
/// ends: cleanly, because its source is exhausted, or cut short by a failure
/// of its source. A stream that is cut short turns invalid when it yields
/// its last entry.
pub trait StorageIterator {
    /// The stream's invariant.
    spec fn inv(&self) -> bool;

    /// The entries that `next` has yet to yield, in order.
    spec fn pending(&self) -> Seq<Entry>;

    /// Whether the stream ends because its source is exhausted.
    spec fn ends_cleanly(&self) -> bool;

    /// The entry that `next` would yield. An invalid stream may show a stale
    /// entry.
    fn peek(&mut self) -> (r: Option<KeyValuePair>)
        requires
            old(self).inv(),
        ensures
            final(self).inv(),
            final(self).pending() == old(self).pending(),
            final(self).ends_cleanly() == old(self).ends_cleanly(),
            old(self).pending().len() > 0 ==> view_opt(r) == Some(old(self).pending()[0]),
            old(self).pending().len() == 0 && old(self).ends_cleanly() ==> r is None,
    ;

    /// Whether the stream has not been cut short.
    fn is_valid(&self) -> (r: bool)
        requires
            self.inv(),
        ensures
            r == (self.pending().len() > 0 || self.ends_cleanly()),
    ;

    /// Yields the next entry and advances, or yields nothing at the end.
    fn next(&mut self) -> (r: Option<KeyValuePair>)
        requires
            old(self).inv(),
        ensures
            final(self).inv(),
            final(self).ends_cleanly() == old(self).ends_cleanly(),
            old(self).pending().len() == 0 ==> r is None && final(self).pending()
                == old(self).pending(),
            old(self).pending().len() > 0 ==> view_opt(r) == Some(old(self).pending()[0])
                && final(self).pending() == old(self).pending().drop_first(),
    ;
}

} // verus!
