use crate::iterator::StorageIterator;
use crate::kv::kv_pair::{entry_before, view_opt, Entry, KeyValuePair};
use vstd::prelude::*;

verus! {

/// Whether the merge of two streams takes its next entry from the first:
/// the second has none, or its next entry does not sort before that of the
/// first.
pub open spec fn takes_first(xs: Seq<Entry>, ys: Seq<Entry>) -> bool {
    ys.len() == 0 || (xs.len() > 0 && !entry_before(ys[0], xs[0]))
}

/// The merge of two streams: at each step the smaller of the two next
/// entries, the first stream's on a tie. The merge ends after an entry with
/// which its stream is cut short.
pub open spec fn merge_two(xs: Seq<Entry>, x_clean: bool, ys: Seq<Entry>, y_clean: bool) -> Seq<
    Entry,
>
    decreases xs.len() + ys.len(),
{
    if xs.len() == 0 && ys.len() == 0 {
        Seq::empty()
    } else if takes_first(xs, ys) {
        if xs.len() == 1 && !x_clean {
            seq![xs[0]]
        } else {
            seq![xs[0]] + merge_two(xs.drop_first(), x_clean, ys, y_clean)
        }
    } else {
        if ys.len() == 1 && !y_clean {
            seq![ys[0]]
        } else {
            seq![ys[0]] + merge_two(xs, x_clean, ys.drop_first(), y_clean)
        }
    }
}

/// Whether the merge of two streams ends because both are exhausted.
pub open spec fn merge_two_clean(
    xs: Seq<Entry>,
    x_clean: bool,
    ys: Seq<Entry>,
    y_clean: bool,
) -> bool
    decreases xs.len() + ys.len(),
{
    if xs.len() == 0 && ys.len() == 0 {
        true
    } else if takes_first(xs, ys) {
        if xs.len() == 1 && !x_clean {
            false
        } else {
            merge_two_clean(xs.drop_first(), x_clean, ys, y_clean)
        }
    } else {
        if ys.len() == 1 && !y_clean {
            false
        } else {
            merge_two_clean(xs, x_clean, ys.drop_first(), y_clean)
        }
    }
}

/// The merge of two streams that end cleanly ends cleanly.
pub proof fn lemma_merge_two_clean(xs: Seq<Entry>, ys: Seq<Entry>)
    ensures
        merge_two_clean(xs, true, ys, true),
    decreases xs.len() + ys.len(),
{
    if xs.len() == 0 && ys.len() == 0 {
    } else if takes_first(xs, ys) {
        lemma_merge_two_clean(xs.drop_first(), ys);
    } else {
        lemma_merge_two_clean(xs, ys.drop_first());
    }
}

/// The merge of two streams, which prefers the first on equal keys.
pub struct TwoMergeIterator<X, Y> {
    sub_iters: (X, Y),
    current_kv: Option<KeyValuePair>,
    current_iter_index: bool,
    is_valid: bool,
}

impl<X: StorageIterator, Y: StorageIterator> TwoMergeIterator<X, Y> {
    /// The first stream.
    pub closed spec fn first(&self) -> X {
        self.sub_iters.0
    }

    /// The second stream.
    pub closed spec fn second(&self) -> Y {
        self.sub_iters.1
    }

    /// Whether neither stream has been found cut short.
    pub closed spec fn valid(&self) -> bool {
        self.is_valid
    }

    /// The merge's invariant: while it is valid both streams are, and it
    /// remembers the next entry and the stream it comes from.
    pub closed spec fn wf(&self) -> bool {
        &&& self.sub_iters.0.inv()
        &&& self.sub_iters.1.inv()
        &&& self.is_valid ==> {
            &&& self.sub_iters.0.pending().len() > 0 || self.sub_iters.0.ends_cleanly()
            &&& self.sub_iters.1.pending().len() > 0 || self.sub_iters.1.ends_cleanly()
            &&& self.current_iter_index == !takes_first(
                self.sub_iters.0.pending(),
                self.sub_iters.1.pending(),
            )
            &&& view_opt(self.current_kv) == (if self.sub_iters.0.pending().len() == 0
                && self.sub_iters.1.pending().len() == 0 {
                None
            } else if takes_first(self.sub_iters.0.pending(), self.sub_iters.1.pending()) {
                Some(self.sub_iters.0.pending()[0])
            } else {
                Some(self.sub_iters.1.pending()[0])
            })
        }
    }

    /// The merge of two streams. It is invalid from the start where one of
    /// them is.
    pub fn new(sub_iter_1: X, sub_iter_2: Y) -> (it: Self)
        requires
            sub_iter_1.inv(),
            sub_iter_2.inv(),
        ensures
            it.wf(),
            it.first().pending() == sub_iter_1.pending(),
            it.first().ends_cleanly() == sub_iter_1.ends_cleanly(),
            it.second().pending() == sub_iter_2.pending(),
            it.second().ends_cleanly() == sub_iter_2.ends_cleanly(),
            it.valid() == ((sub_iter_1.pending().len() > 0 || sub_iter_1.ends_cleanly()) && (
            sub_iter_2.pending().len() > 0 || sub_iter_2.ends_cleanly())),
    {
        let mut sub_iters = (sub_iter_1, sub_iter_2);
        let is_valid = sub_iters.0.is_valid() && sub_iters.1.is_valid();
        let (current_kv, current_iter_index) = Self::get_current_kv_and_iter_index(
            &mut sub_iters,
            is_valid,
        );
        Self { sub_iters, current_kv, current_iter_index, is_valid }
    }

    /// The next entry of the merge and the stream it comes from: `false`
    /// for the first, `true` for the second. Nothing where the merge is
    /// not valid.
    fn get_current_kv_and_iter_index(sub_iters: &mut (X, Y), is_valid: bool) -> (r: (
        Option<KeyValuePair>,
        bool,
    ))
        requires
            old(sub_iters).0.inv(),
            old(sub_iters).1.inv(),
            is_valid ==> (old(sub_iters).0.pending().len() > 0 || old(sub_iters).0.ends_cleanly())
                && (old(sub_iters).1.pending().len() > 0 || old(sub_iters).1.ends_cleanly()),
        ensures
            final(sub_iters).0.inv(),
            final(sub_iters).1.inv(),
            final(sub_iters).0.pending() == old(sub_iters).0.pending(),
            final(sub_iters).1.pending() == old(sub_iters).1.pending(),
            final(sub_iters).0.ends_cleanly() == old(sub_iters).0.ends_cleanly(),
            final(sub_iters).1.ends_cleanly() == old(sub_iters).1.ends_cleanly(),
            !is_valid ==> r.0 is None && !r.1,
            is_valid ==> {
                &&& r.1 == !takes_first(old(sub_iters).0.pending(), old(sub_iters).1.pending())
                &&& view_opt(r.0) == (if old(sub_iters).0.pending().len() == 0 && old(
                    sub_iters,
                ).1.pending().len() == 0 {
                    None
                } else if takes_first(old(sub_iters).0.pending(), old(sub_iters).1.pending()) {
                    Some(old(sub_iters).0.pending()[0])
                } else {
                    Some(old(sub_iters).1.pending()[0])
                })
            },
    {
        if !is_valid {
            (None, false)
        } else {
            let first = sub_iters.0.peek();
            let second = sub_iters.1.peek();
            match (first, second) {
                (Some(kv0), Some(kv1)) => {
                    if kv1.key.is_before(&kv0.key) {
                        (Some(kv1), true)
                    } else {
                        (Some(kv0), false)
                    }
                },
                (Some(kv0), None) => (Some(kv0), false),
                (None, Some(kv1)) => (Some(kv1), true),
                (None, None) => (None, false),
            }
        }
    }
}

impl<X: StorageIterator, Y: StorageIterator> StorageIterator for TwoMergeIterator<X, Y> {
    open spec fn inv(&self) -> bool {
        self.wf()
    }

    open spec fn pending(&self) -> Seq<Entry> {
        if self.valid() {
            merge_two(
                self.first().pending(),
                self.first().ends_cleanly(),
                self.second().pending(),
                self.second().ends_cleanly(),
            )
        } else {
            Seq::empty()
        }
    }

    open spec fn ends_cleanly(&self) -> bool {
        self.valid() && merge_two_clean(
            self.first().pending(),
            self.first().ends_cleanly(),
            self.second().pending(),
            self.second().ends_cleanly(),
        )
    }

    fn peek(&mut self) -> (r: Option<KeyValuePair>) {
        match &self.current_kv {
            Some(kv) => Some(kv.clone()),
            None => None,
        }
    }

    fn is_valid(&self) -> (r: bool)
        ensures
            r == self.valid(),
    {
        self.is_valid
    }

    fn next(&mut self) -> (r: Option<KeyValuePair>) {
        let res = match &self.current_kv {
            Some(kv) => kv.clone(),
            None => {
                return None;
            },
        };
        if !self.is_valid {
            return None;
        }
        if !self.current_iter_index {
            self.sub_iters.0.next();
            if !self.sub_iters.0.is_valid() {
                self.is_valid = false;
            }
        } else {
            self.sub_iters.1.next();
            if !self.sub_iters.1.is_valid() {
                self.is_valid = false;
            }
        }
        let (current_kv, current_iter_index) = Self::get_current_kv_and_iter_index(
            &mut self.sub_iters,
            self.is_valid,
        );
        self.current_kv = current_kv;
        self.current_iter_index = current_iter_index;
        Some(res)
    }
}

} // verus!
