use crate::iterator::StorageIterator;
use crate::kv::kv_pair::{entry_before, view_opt, Entry, KeyValuePair};
use vstd::prelude::*;

verus! {

/// One source of a merge: the entry taken from it that the merge has yet to
/// yield, the entries it has yet to give, and whether it ends because it is
/// exhausted.
pub struct Source {
    pub head: Option<Entry>,
    pub rest: Seq<Entry>,
    pub clean: bool,
}

/// The first entry of a list, if it has one.
pub open spec fn head_of(s: Seq<Entry>) -> Option<Entry> {
    if s.len() > 0 {
        Some(s[0])
    } else {
        None
    }
}

/// A list without its first entry; an empty list stays empty.
pub open spec fn tail_of(s: Seq<Entry>) -> Seq<Entry> {
    if s.len() > 0 {
        s.drop_first()
    } else {
        s
    }
}

/// A source from which nothing is taken yet, after its first entry is
/// taken.
pub open spec fn primed(pending: Seq<Entry>, clean: bool) -> Source {
    Source { head: head_of(pending), rest: tail_of(pending), clean }
}

/// A source after its head is yielded and its next entry is taken.
pub open spec fn advanced(src: Source) -> Source {
    Source { head: head_of(src.rest), rest: tail_of(src.rest), clean: src.clean }
}

/// The index, among the first `n` sources, of the head that sorts first;
/// of heads that sort alike, the one with the lowest index. Minus one where
/// none of them has a head.
pub open spec fn least_upto(srcs: Seq<Source>, n: int) -> int
    decreases n,
{
    if n <= 0 {
        -1
    } else {
        let best = least_upto(srcs, n - 1);
        match srcs[n - 1].head {
            None => best,
            Some(e) => if best < 0 || entry_before(e, srcs[best].head.unwrap()) {
                n - 1
            } else {
                best
            },
        }
    }
}

/// The index of the head that the merge yields next.
pub open spec fn least(srcs: Seq<Source>) -> int {
    least_upto(srcs, srcs.len() as int)
}

/// The number of entries that the first `n` sources still hold, heads
/// counted.
pub open spec fn weight_upto(srcs: Seq<Source>, n: int) -> nat
    decreases n,
{
    if n <= 0 {
        0
    } else {
        weight_upto(srcs, n - 1) + srcs[n - 1].rest.len() + (if srcs[n - 1].head is Some {
            1nat
        } else {
            0nat
        })
    }
}

/// The number of entries that the sources still hold.
pub open spec fn weight(srcs: Seq<Source>) -> nat {
    weight_upto(srcs, srcs.len() as int)
}

/// The merge of the sources over at most `steps` entries: at each step the
/// head that sorts first, of heads that sort alike the one of the source
/// with the lowest index. The merge ends after a head with which its source
/// is cut short.
pub open spec fn merged(srcs: Seq<Source>, steps: nat) -> Seq<Entry>
    decreases steps,
{
    let i = least(srcs);
    if steps == 0 || i < 0 {
        Seq::empty()
    } else if srcs[i].rest.len() == 0 && !srcs[i].clean {
        seq![srcs[i].head.unwrap()]
    } else {
        seq![srcs[i].head.unwrap()] + merged(
            srcs.update(i, advanced(srcs[i])),
            (steps - 1) as nat,
        )
    }
}

/// Whether the merge over at most `steps` entries ends without a source
/// that is cut short.
pub open spec fn merged_clean(srcs: Seq<Source>, steps: nat) -> bool
    decreases steps,
{
    let i = least(srcs);
    if steps == 0 || i < 0 {
        true
    } else if srcs[i].rest.len() == 0 && !srcs[i].clean {
        false
    } else {
        merged_clean(srcs.update(i, advanced(srcs[i])), (steps - 1) as nat)
    }
}

/// The merge of the sources.
pub open spec fn merge_all(srcs: Seq<Source>) -> Seq<Entry> {
    merged(srcs, weight(srcs))
}

/// The least head is a head, at an index of the sources.
pub proof fn lemma_least_upto(srcs: Seq<Source>, n: int)
    requires
        0 <= n <= srcs.len(),
    ensures
        -1 <= least_upto(srcs, n) < n,
        least_upto(srcs, n) >= 0 ==> srcs[least_upto(srcs, n)].head is Some,
        least_upto(srcs, n) < 0 ==> forall|j: int| 0 <= j < n ==> (#[trigger] srcs[j]).head is None,
    decreases n,
{
    if n > 0 {
        lemma_least_upto(srcs, n - 1);
    }
}

/// A source that advances takes one entry off the weight; the other
/// sources keep theirs.
pub proof fn lemma_weight_advance(srcs: Seq<Source>, i: int, n: int)
    requires
        0 <= i < srcs.len(),
        0 <= n <= srcs.len(),
        srcs[i].head is Some,
    ensures
        weight_upto(srcs.update(i, advanced(srcs[i])), n) + (if i < n {
            1nat
        } else {
            0nat
        }) == weight_upto(srcs, n),
    decreases n,
{
    if n > 0 {
        lemma_weight_advance(srcs, i, n - 1);
    }
}

/// The merge of several streams into one.
pub struct MergeIterator<T> {
    heads: Vec<Option<KeyValuePair>>,
    iterators_to_merge: Vec<T>,
    is_valid: bool,
}

impl<T: StorageIterator> MergeIterator<T> {
    /// The sources of the merge, in their order.
    pub closed spec fn sources(&self) -> Seq<Source> {
        Seq::new(
            self.iterators_to_merge@.len(),
            |i: int|
                Source {
                    head: view_opt(self.heads@[i]),
                    rest: self.iterators_to_merge@[i].pending(),
                    clean: self.iterators_to_merge@[i].ends_cleanly(),
                },
        )
    }

    /// Whether no source has been found cut short.
    pub closed spec fn valid(&self) -> bool {
        self.is_valid
    }

    /// The merge's invariant: it holds one head for each source, and every
    /// source keeps its invariant.
    pub closed spec fn wf(&self) -> bool {
        &&& self.heads@.len() == self.iterators_to_merge@.len()
        &&& forall|i: int|
            0 <= i < self.iterators_to_merge@.len()
                ==> (#[trigger] self.iterators_to_merge@[i]).inv()
    }

    /// The merge of the streams, which takes the first entry of each. It is
    /// invalid from the start where one of the streams is.
    pub fn new(iterators_to_merge: Vec<T>) -> (it: Self)
        requires
            forall|i: int| 0 <= i < iterators_to_merge@.len()
                ==> (#[trigger] iterators_to_merge@[i]).inv(),
        ensures
            it.wf(),
            it.valid() == (forall|i: int|
                0 <= i < iterators_to_merge@.len()
                    ==> (#[trigger] iterators_to_merge@[i]).pending().len()
                    > 0 || iterators_to_merge@[i].ends_cleanly()),
            it.valid() ==> it.sources() == Seq::new(
                iterators_to_merge@.len(),
                |i: int|
                    primed(
                        iterators_to_merge@[i].pending(),
                        iterators_to_merge@[i].ends_cleanly(),
                    ),
            ),
    {
        let mut iterators_to_merge = iterators_to_merge;
        let ghost before = iterators_to_merge@;
        let n = iterators_to_merge.len();
        let mut is_valid = true;
        let mut heads: Vec<Option<KeyValuePair>> = Vec::new();
        let mut index: usize = 0;
        while index < n
            invariant_except_break
                is_valid,
            invariant
                index <= n,
                n == before.len(),
                iterators_to_merge@.len() == n,
                heads@.len() == index,
                forall|i: int| 0 <= i < n ==> (#[trigger] iterators_to_merge@[i]).inv(),
                forall|i: int| index <= i < n ==> iterators_to_merge@[i] == before[i],
                forall|i: int|
                    0 <= i < index ==> (#[trigger] before[i]).pending().len() > 0
                        || before[i].ends_cleanly(),
                forall|i: int|
                    0 <= i < index ==> view_opt(#[trigger] heads@[i]) == head_of(
                        before[i].pending(),
                    ) && iterators_to_merge@[i].pending() == tail_of(before[i].pending())
                        && iterators_to_merge@[i].ends_cleanly() == before[i].ends_cleanly(),
            ensures
                heads@.len() == index,
                index <= n,
                iterators_to_merge@.len() == n,
                forall|i: int| 0 <= i < n ==> (#[trigger] iterators_to_merge@[i]).inv(),
                is_valid ==> index == n && forall|i: int|
                    0 <= i < n ==> view_opt(#[trigger] heads@[i]) == head_of(before[i].pending())
                        && iterators_to_merge@[i].pending() == tail_of(before[i].pending())
                        && iterators_to_merge@[i].ends_cleanly() == before[i].ends_cleanly(),
                is_valid ==> forall|i: int|
                    0 <= i < n ==> (#[trigger] before[i]).pending().len() > 0
                        || before[i].ends_cleanly(),
                !is_valid ==> index < n && !(before[index as int].pending().len() > 0
                    || before[index as int].ends_cleanly()),
            decreases n - index,
        {
            if !iterators_to_merge[index].is_valid() {
                is_valid = false;
                break;
            }
            let new_heap_kv = iterators_to_merge[index].next();
            heads.push(new_heap_kv);
            index += 1;
        }
        let ghost primed_heads = heads@;
        while heads.len() < n
            invariant
                heads@.len() <= n,
                is_valid ==> heads@ == primed_heads,
                is_valid ==> primed_heads.len() == n,
            decreases n - heads@.len(),
        {
            heads.push(None);
        }
        let it = Self { heads, iterators_to_merge, is_valid };
        proof {
            if is_valid {
                assert(it.sources() =~= Seq::new(
                    before.len(),
                    |i: int| primed(before[i].pending(), before[i].ends_cleanly()),
                ));
            }
        }
        it
    }

    /// The index of the head that sorts first, if there is a head.
    fn least_index(&self) -> (r: Option<usize>)
        requires
            self.wf(),
        ensures
            match r {
                Some(i) => i == least(self.sources()) && i < self.sources().len(),
                None => least(self.sources()) < 0,
            },
    {
        let n = self.heads.len();
        let ghost srcs = self.sources();
        let mut best: Option<usize> = None;
        let mut j: usize = 0;
        while j < n
            invariant
                j <= n,
                n == self.heads@.len(),
                n == srcs.len(),
                srcs == self.sources(),
                match best {
                    Some(i) => i == least_upto(srcs, j as int) && i < j,
                    None => least_upto(srcs, j as int) < 0,
                },
            decreases n - j,
        {
            proof {
                lemma_least_upto(srcs, j as int);
            }
            match &self.heads[j] {
                None => {},
                Some(kv) => {
                    match best {
                        None => {
                            best = Some(j);
                        },
                        Some(i) => {
                            match &self.heads[i] {
                                Some(other) => {
                                    if kv.key.is_before(&other.key) {
                                        best = Some(j);
                                    }
                                },
                                None => {},
                            }
                        },
                    }
                },
            }
            j += 1;
        }
        best
    }
}

impl<T: StorageIterator> StorageIterator for MergeIterator<T> {
    open spec fn inv(&self) -> bool {
        self.wf()
    }

    open spec fn pending(&self) -> Seq<Entry> {
        if self.valid() {
            merge_all(self.sources())
        } else {
            Seq::empty()
        }
    }

    open spec fn ends_cleanly(&self) -> bool {
        self.valid() && merged_clean(self.sources(), weight(self.sources()))
    }

    fn peek(&mut self) -> (r: Option<KeyValuePair>)
        ensures
            final(self).sources() == old(self).sources(),
            final(self).valid() == old(self).valid(),
    {
        proof {
            lemma_least_upto(self.sources(), self.sources().len() as int);
            lemma_weight_positive(self.sources());
        }
        match self.least_index() {
            None => None,
            Some(i) => match &self.heads[i] {
                Some(kv) => Some(kv.clone()),
                None => None,
            },
        }
    }

    fn is_valid(&self) -> (r: bool)
        ensures
            r == self.valid(),
    {
        proof {
            lemma_least_upto(self.sources(), self.sources().len() as int);
            lemma_weight_positive(self.sources());
        }
        self.is_valid
    }

    fn next(&mut self) -> (r: Option<KeyValuePair>) {
        if !self.is_valid {
            return None;
        }
        let ghost srcs = self.sources();
        proof {
            lemma_least_upto(srcs, srcs.len() as int);
            lemma_weight_positive(srcs);
        }
        let index = match self.least_index() {
            None => {
                return None;
            },
            Some(i) => i,
        };
        let mut taken: Option<KeyValuePair> = None;
        std::mem::swap(&mut self.heads[index], &mut taken);
        let res_kv = match taken {
            Some(kv) => kv,
            None => {
                return None;
            },
        };
        if !self.iterators_to_merge[index].is_valid() {
            self.is_valid = false;
        }
        let new_heap_kv = self.iterators_to_merge[index].next();
        self.heads[index] = new_heap_kv;
        proof {
            lemma_weight_advance(srcs, index as int, srcs.len() as int);
            assert(self.sources() =~= srcs.update(index as int, advanced(srcs[index as int])));
        }
        Some(res_kv)
    }
}

/// Sources of which one has a head weigh at least one entry.
pub proof fn lemma_weight_positive(srcs: Seq<Source>)
    ensures
        least(srcs) >= 0 ==> weight(srcs) > 0,
{
    lemma_least_upto(srcs, srcs.len() as int);
    if least(srcs) >= 0 {
        lemma_weight_has(srcs, least(srcs), srcs.len() as int);
    }
}

/// The weight of the first `n` sources counts the head of each of them.
pub proof fn lemma_weight_has(srcs: Seq<Source>, i: int, n: int)
    requires
        0 <= i < n <= srcs.len(),
        srcs[i].head is Some,
    ensures
        weight_upto(srcs, n) > 0,
    decreases n,
{
    if i < n - 1 {
        lemma_weight_has(srcs, i, n - 1);
    }
}

} // verus!
