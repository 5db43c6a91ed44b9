//! What the merge of sorted streams yields: a sorted stream of the same
//! entries, with the streams in their order where entries sort alike.

use crate::iterator::bounded_iterator::{bounded_prefix, within};
use crate::iterator::merge_iterator::{
    advanced, least, least_upto, lemma_least_upto, lemma_weight_advance, merge_all, merged,
    merged_clean, primed, weight, Source,
};
use crate::iterator::two_merge_iterator::{merge_two, takes_first};
use crate::kv::kv_pair::{
    entry_before, lemma_entry_not_after_transitive, lemma_entry_order_total, Entry,
};
use std::ops::Bound;
use vstd::multiset::Multiset;
use vstd::prelude::*;
use vstd::seq_lib::lemma_multiset_commutative;

verus! {

/// No entry of the list sorts before an earlier one.
pub open spec fn sorted(s: Seq<Entry>) -> bool {
    forall|i: int, j: int| 0 <= i < j < s.len() ==> !entry_before(#[trigger] s[j], #[trigger] s[i])
}

/// The entries a source still holds: its head, then the rest.
pub open spec fn held(src: Source) -> Seq<Entry> {
    match src.head {
        Some(e) => seq![e] + src.rest,
        None => src.rest,
    }
}

/// A source as the merge keeps it: sorted, exhausted where it has no head,
/// and not cut short.
pub open spec fn orderly(src: Source) -> bool {
    &&& sorted(held(src))
    &&& (src.head is None ==> src.rest.len() == 0)
    &&& src.clean
}

/// Every source is orderly.
pub open spec fn all_orderly(srcs: Seq<Source>) -> bool {
    forall|i: int| 0 <= i < srcs.len() ==> orderly(#[trigger] srcs[i])
}

/// No entry that a source holds sorts before `e`.
pub open spec fn bounded_below(srcs: Seq<Source>, e: Entry) -> bool {
    forall|i: int, k: int|
        0 <= i < srcs.len() && 0 <= k < held(srcs[i]).len() ==> !entry_before(
            #[trigger] held(srcs[i])[k],
            e,
        )
}

/// The entries that the first `n` sources hold, as a multiset.
pub open spec fn held_upto(srcs: Seq<Source>, n: int) -> Multiset<Entry>
    decreases n,
{
    if n <= 0 {
        Multiset::empty()
    } else {
        held_upto(srcs, n - 1).add(held(srcs[n - 1]).to_multiset())
    }
}

/// The entries that the sources hold, as a multiset.
pub open spec fn held_all(srcs: Seq<Source>) -> Multiset<Entry> {
    held_upto(srcs, srcs.len() as int)
}

/// The head that the merge yields next sorts after no other head, and
/// before every head of a source with a lower index.
pub proof fn lemma_least_is_first(srcs: Seq<Source>, n: int, j: int)
    requires
        0 <= j < n <= srcs.len(),
        srcs[j].head is Some,
    ensures
        least_upto(srcs, n) >= 0,
        !entry_before(srcs[j].head.unwrap(), srcs[least_upto(srcs, n)].head.unwrap()),
        j < least_upto(srcs, n) ==> entry_before(
            srcs[least_upto(srcs, n)].head.unwrap(),
            srcs[j].head.unwrap(),
        ),
    decreases n,
{
    lemma_least_upto(srcs, n);
    lemma_least_upto(srcs, n - 1);
    let best = least_upto(srcs, n - 1);
    let now = least_upto(srcs, n);
    if j < n - 1 {
        lemma_least_is_first(srcs, n - 1, j);
        if now == n - 1 {
            let e = srcs[n - 1].head.unwrap();
            let b = srcs[best].head.unwrap();
            let h = srcs[j].head.unwrap();
            lemma_entry_order_total(e, b);
            if entry_before(h, e) {
                crate::kv::kv_pair::lemma_entry_before_transitive(h, e, b);
            }
            if j < best {
                crate::kv::kv_pair::lemma_entry_before_transitive(e, b, h);
            } else if j == best {
            } else {
                if !entry_before(e, h) {
                    lemma_entry_not_after_transitive(b, h, e);
                }
            }
        }
    } else {
        if now != n - 1 {
            lemma_entry_order_total(srcs[j].head.unwrap(), srcs[best].head.unwrap());
        } else {
            crate::kv::kv_pair::lemma_entry_before_irreflexive(srcs[j].head.unwrap());
        }
    }
}

/// A source that advances stays orderly, and holds what it held but for
/// its head.
pub proof fn lemma_advanced(src: Source)
    requires
        orderly(src),
        src.head is Some,
    ensures
        orderly(advanced(src)),
        held(src) == seq![src.head.unwrap()] + held(advanced(src)),
{
    let a = advanced(src);
    if src.rest.len() > 0 {
        assert(held(a) =~= src.rest);
        assert forall|i: int, j: int| 0 <= i < j < held(a).len() implies !entry_before(
            #[trigger] held(a)[j],
            #[trigger] held(a)[i],
        ) by {
            assert(held(a)[i] == held(src)[i + 1]);
            assert(held(a)[j] == held(src)[j + 1]);
        }
    } else {
        assert(held(a) =~= Seq::<Entry>::empty());
        assert(held(src) =~= seq![src.head.unwrap()] + held(a));
    }
}

/// Where no entry of the sources sorts before `e`, none that the merge
/// yields does.
pub proof fn lemma_merged_bounded(srcs: Seq<Source>, steps: nat, e: Entry)
    requires
        all_orderly(srcs),
        bounded_below(srcs, e),
    ensures
        forall|k: int|
            0 <= k < merged(srcs, steps).len() ==> !entry_before(
                #[trigger] merged(srcs, steps)[k],
                e,
            ),
    decreases steps,
{
    let i = least(srcs);
    lemma_least_upto(srcs, srcs.len() as int);
    if steps > 0 && i >= 0 {
        let next = srcs.update(i, advanced(srcs[i]));
        lemma_advanced(srcs[i]);
        assert(held(srcs[i])[0] == srcs[i].head.unwrap());
        assert(all_orderly(next));
        assert forall|x: int, k: int|
            0 <= x < next.len() && 0 <= k < held(next[x]).len() implies !entry_before(
            #[trigger] held(next[x])[k],
            e,
        ) by {
            if x == i {
                assert(held(next[x])[k] == held(srcs[i])[k + 1]);
            } else {
                assert(held(next[x])[k] == held(srcs[x])[k]);
            }
        }
        lemma_merged_bounded(next, (steps - 1) as nat, e);
        let out = merged(srcs, steps);
        let tail = merged(next, (steps - 1) as nat);
        assert forall|k: int| 0 <= k < out.len() implies !entry_before(#[trigger] out[k], e) by {
            if k > 0 {
                assert(out[k] == tail[k - 1]);
            }
        }
    }
}

/// The merge of orderly sources is sorted.
pub proof fn lemma_merged_sorted(srcs: Seq<Source>, steps: nat)
    requires
        all_orderly(srcs),
    ensures
        sorted(merged(srcs, steps)),
    decreases steps,
{
    let i = least(srcs);
    lemma_least_upto(srcs, srcs.len() as int);
    if steps > 0 && i >= 0 {
        let e = srcs[i].head.unwrap();
        let next = srcs.update(i, advanced(srcs[i]));
        lemma_advanced(srcs[i]);
        assert(all_orderly(next));
        assert forall|x: int, k: int|
            0 <= x < next.len() && 0 <= k < held(next[x]).len() implies !entry_before(
            #[trigger] held(next[x])[k],
            e,
        ) by {
            if x == i {
                assert(held(next[x])[k] == held(srcs[i])[k + 1]);
                assert(held(srcs[i])[0] == e);
            } else {
                assert(held(next[x]) == held(srcs[x]));
                assert(srcs[x].head is Some);
                let h = srcs[x].head.unwrap();
                lemma_least_is_first(srcs, srcs.len() as int, x);
                assert(orderly(srcs[x]));
                assert(held(srcs[x])[0] == h);
                if k > 0 {
                    lemma_entry_not_after_transitive(e, h, held(srcs[x])[k]);
                }
            }
        }
        lemma_merged_bounded(next, (steps - 1) as nat, e);
        lemma_merged_sorted(next, (steps - 1) as nat);
        let out = merged(srcs, steps);
        let tail = merged(next, (steps - 1) as nat);
        assert forall|a: int, b: int| 0 <= a < b < out.len() implies !entry_before(
            #[trigger] out[b],
            #[trigger] out[a],
        ) by {
            assert(out[b] == tail[b - 1]);
            if a > 0 {
                assert(out[a] == tail[a - 1]);
            }
        }
    }
}

/// What the first `n` sources hold after one of them advances is what they
/// held but for its head.
pub proof fn lemma_held_advance(srcs: Seq<Source>, i: int, n: int)
    requires
        0 <= i < srcs.len(),
        0 <= n <= srcs.len(),
        orderly(srcs[i]),
        srcs[i].head is Some,
    ensures
        held_upto(srcs, n) == (if i < n {
            held_upto(srcs.update(i, advanced(srcs[i])), n).insert(srcs[i].head.unwrap())
        } else {
            held_upto(srcs.update(i, advanced(srcs[i])), n)
        }),
    decreases n,
{
    let next = srcs.update(i, advanced(srcs[i]));
    if n > 0 {
        lemma_held_advance(srcs, i, n - 1);
        if i == n - 1 {
            lemma_advanced(srcs[i]);
            let e = srcs[i].head.unwrap();
            lemma_multiset_commutative(seq![e], held(next[i]));
            assert(seq![e].to_multiset() =~= Multiset::singleton(e)) by {
                vstd::seq_lib::to_multiset_build(Seq::<Entry>::empty(), e);
                assert(Seq::<Entry>::empty().push(e) =~= seq![e]);
                assert(Seq::<Entry>::empty().to_multiset() =~= Multiset::empty()) by {
                    Seq::<Entry>::empty().to_multiset_ensures();
                }
            }
            assert(held_upto(srcs, n) =~= held_upto(next, n).insert(e));
        } else {
            assert(held_upto(srcs, n) =~= (if i < n {
                held_upto(next, n).insert(srcs[i].head.unwrap())
            } else {
                held_upto(next, n)
            }));
        }
    } else {
        assert(held_upto(srcs, n) =~= held_upto(next, n));
    }
}

/// Sources without a head hold nothing, where they are orderly.
pub proof fn lemma_held_nothing(srcs: Seq<Source>, n: int)
    requires
        all_orderly(srcs),
        0 <= n <= srcs.len(),
        forall|j: int| 0 <= j < n ==> (#[trigger] srcs[j]).head is None,
    ensures
        held_upto(srcs, n) == Multiset::<Entry>::empty(),
    decreases n,
{
    if n > 0 {
        lemma_held_nothing(srcs, n - 1);
        assert(srcs[n - 1].head is None);
        assert(orderly(srcs[n - 1]));
        assert(held(srcs[n - 1]) =~= Seq::<Entry>::empty());
        Seq::<Entry>::empty().to_multiset_ensures();
        assert(held_upto(srcs, n) =~= Multiset::<Entry>::empty());
    }
}

/// The merge of orderly sources yields the entries that the sources hold,
/// each as often as they hold it, where it is given enough steps.
pub proof fn lemma_merged_holds(srcs: Seq<Source>, steps: nat)
    requires
        all_orderly(srcs),
        steps >= weight(srcs),
    ensures
        merged(srcs, steps).to_multiset() == held_all(srcs),
    decreases steps,
{
    let i = least(srcs);
    let n = srcs.len() as int;
    lemma_least_upto(srcs, n);
    if i < 0 {
        lemma_held_nothing(srcs, n);
        Seq::<Entry>::empty().to_multiset_ensures();
        assert(merged(srcs, steps) =~= Seq::<Entry>::empty());
        assert(merged(srcs, steps).to_multiset() =~= held_all(srcs));
    } else {
        crate::iterator::merge_iterator::lemma_weight_positive(srcs);
        let e = srcs[i].head.unwrap();
        let next = srcs.update(i, advanced(srcs[i]));
        lemma_advanced(srcs[i]);
        assert(all_orderly(next));
        lemma_weight_advance(srcs, i, n);
        lemma_merged_holds(next, (steps - 1) as nat);
        lemma_held_advance(srcs, i, n);
        let tail = merged(next, (steps - 1) as nat);
        lemma_multiset_commutative(seq![e], tail);
        assert(seq![e].to_multiset() =~= Multiset::singleton(e)) by {
            vstd::seq_lib::to_multiset_build(Seq::<Entry>::empty(), e);
            assert(Seq::<Entry>::empty().push(e) =~= seq![e]);
            Seq::<Entry>::empty().to_multiset_ensures();
        }
        assert(merged(srcs, steps).to_multiset() =~= held_all(srcs));
    }
}

/// The merge of sources that end cleanly ends cleanly.
pub proof fn lemma_merged_clean(srcs: Seq<Source>, steps: nat)
    requires
        forall|i: int| 0 <= i < srcs.len() ==> (#[trigger] srcs[i]).clean,
    ensures
        merged_clean(srcs, steps),
    decreases steps,
{
    let i = least(srcs);
    lemma_least_upto(srcs, srcs.len() as int);
    if steps > 0 && i >= 0 {
        let next = srcs.update(i, advanced(srcs[i]));
        assert forall|j: int| 0 <= j < next.len() implies (#[trigger] next[j]).clean by {
            if j != i {
                assert(next[j] == srcs[j]);
            }
        }
        lemma_merged_clean(next, (steps - 1) as nat);
    }
}

/// Entries with ascending keys, given timestamp zero, are sorted.
pub proof fn lemma_stamped_sorted(s: Seq<crate::block::RawEntry>)
    requires
        crate::table::ascending(s),
    ensures
        sorted(crate::memory::memtable::iterator::stamped_all(s)),
{
    let t = crate::memory::memtable::iterator::stamped_all(s);
    assert forall|i: int, j: int| 0 <= i < j < t.len() implies !entry_before(
        #[trigger] t[j],
        #[trigger] t[i],
    ) by {
        assert(crate::lex::lex_lt(s[i].0, s[j].0));
        crate::lex::lemma_lex_trichotomy(s[i].0, s[j].0);
    }
}

/// A sorted list without its first entry is sorted.
pub proof fn lemma_sorted_tail(s: Seq<Entry>)
    requires
        sorted(s),
        s.len() > 0,
    ensures
        sorted(s.drop_first()),
{
    let t = s.drop_first();
    assert forall|i: int, j: int| 0 <= i < j < t.len() implies !entry_before(
        #[trigger] t[j],
        #[trigger] t[i],
    ) by {
        assert(t[i] == s[i + 1]);
        assert(t[j] == s[j + 1]);
    }
}

/// An entry that sorts after none of a sorted list, put in front of the
/// list, gives a sorted list.
pub proof fn lemma_sorted_cons(e: Entry, s: Seq<Entry>)
    requires
        sorted(s),
        forall|k: int| 0 <= k < s.len() ==> !entry_before(#[trigger] s[k], e),
    ensures
        sorted(seq![e] + s),
{
    let t = seq![e] + s;
    assert forall|i: int, j: int| 0 <= i < j < t.len() implies !entry_before(
        #[trigger] t[j],
        #[trigger] t[i],
    ) by {
        assert(t[j] == s[j - 1]);
        if i > 0 {
            assert(t[i] == s[i - 1]);
        }
    }
}

/// Where no entry of two lists sorts before `e`, none of their merge does.
pub proof fn lemma_merge_two_bounded(xs: Seq<Entry>, ys: Seq<Entry>, e: Entry)
    requires
        forall|k: int| 0 <= k < xs.len() ==> !entry_before(#[trigger] xs[k], e),
        forall|k: int| 0 <= k < ys.len() ==> !entry_before(#[trigger] ys[k], e),
    ensures
        forall|k: int|
            0 <= k < merge_two(xs, true, ys, true).len() ==> !entry_before(
                #[trigger] merge_two(xs, true, ys, true)[k],
                e,
            ),
    decreases xs.len() + ys.len(),
{
    let out = merge_two(xs, true, ys, true);
    if xs.len() == 0 && ys.len() == 0 {
    } else if takes_first(xs, ys) {
        let rest = xs.drop_first();
        assert forall|k: int| 0 <= k < rest.len() implies !entry_before(#[trigger] rest[k], e) by {
            assert(rest[k] == xs[k + 1]);
        }
        lemma_merge_two_bounded(rest, ys, e);
        let tail = merge_two(rest, true, ys, true);
        assert forall|k: int| 0 <= k < out.len() implies !entry_before(#[trigger] out[k], e) by {
            if k > 0 {
                assert(out[k] == tail[k - 1]);
            } else {
                assert(out[0] == xs[0]);
            }
        }
    } else {
        let rest = ys.drop_first();
        assert forall|k: int| 0 <= k < rest.len() implies !entry_before(#[trigger] rest[k], e) by {
            assert(rest[k] == ys[k + 1]);
        }
        lemma_merge_two_bounded(xs, rest, e);
        let tail = merge_two(xs, true, rest, true);
        assert forall|k: int| 0 <= k < out.len() implies !entry_before(#[trigger] out[k], e) by {
            if k > 0 {
                assert(out[k] == tail[k - 1]);
            } else {
                assert(out[0] == ys[0]);
            }
        }
    }
}

/// The merge of two sorted streams is a sorted stream that holds the
/// entries of both, each as often as they hold it.
pub proof fn lemma_merge_two_sorted(xs: Seq<Entry>, ys: Seq<Entry>)
    requires
        sorted(xs),
        sorted(ys),
    ensures
        sorted(merge_two(xs, true, ys, true)),
        merge_two(xs, true, ys, true).to_multiset() == xs.to_multiset().add(ys.to_multiset()),
    decreases xs.len() + ys.len(),
{
    let out = merge_two(xs, true, ys, true);
    if xs.len() == 0 && ys.len() == 0 {
        assert(out =~= Seq::<Entry>::empty());
        assert(xs =~= Seq::<Entry>::empty());
        assert(ys =~= Seq::<Entry>::empty());
        Seq::<Entry>::empty().to_multiset_ensures();
        assert(out.to_multiset() =~= xs.to_multiset().add(ys.to_multiset()));
    } else if takes_first(xs, ys) {
        let e = xs[0];
        let rest = xs.drop_first();
        lemma_sorted_tail(xs);
        lemma_merge_two_sorted(rest, ys);
        assert forall|k: int| 0 <= k < rest.len() implies !entry_before(#[trigger] rest[k], e) by {
            assert(rest[k] == xs[k + 1]);
        }
        assert forall|k: int| 0 <= k < ys.len() implies !entry_before(#[trigger] ys[k], e) by {
            if k > 0 {
                lemma_entry_not_after_transitive(e, ys[0], ys[k]);
            }
        }
        lemma_merge_two_bounded(rest, ys, e);
        let tail = merge_two(rest, true, ys, true);
        lemma_sorted_cons(e, tail);
        assert(out =~= seq![e] + tail);
        lemma_multiset_commutative(seq![e], tail);
        lemma_multiset_commutative(seq![e], rest);
        assert(xs =~= seq![e] + rest);
        assert(out.to_multiset() =~= xs.to_multiset().add(ys.to_multiset()));
    } else {
        let e = ys[0];
        let rest = ys.drop_first();
        lemma_sorted_tail(ys);
        lemma_merge_two_sorted(xs, rest);
        assert forall|k: int| 0 <= k < rest.len() implies !entry_before(#[trigger] rest[k], e) by {
            assert(rest[k] == ys[k + 1]);
        }
        assert forall|k: int| 0 <= k < xs.len() implies !entry_before(#[trigger] xs[k], e) by {
            lemma_entry_order_total(e, xs[0]);
            if k > 0 {
                lemma_entry_not_after_transitive(e, xs[0], xs[k]);
            }
        }
        lemma_merge_two_bounded(xs, rest, e);
        let tail = merge_two(xs, true, rest, true);
        lemma_sorted_cons(e, tail);
        assert(out =~= seq![e] + tail);
        lemma_multiset_commutative(seq![e], tail);
        lemma_multiset_commutative(seq![e], rest);
        assert(ys =~= seq![e] + rest);
        assert(out.to_multiset() =~= xs.to_multiset().add(ys.to_multiset()));
    }
}

/// The entries of a sorted list before the first that exceeds an upper
/// bound are sorted.
pub proof fn lemma_bounded_prefix_sorted(s: Seq<Entry>, upper: Bound<(Seq<u8>, usize)>)
    requires
        sorted(s),
    ensures
        sorted(bounded_prefix(s, upper)),
    decreases s.len(),
{
    if s.len() > 0 && within(upper, s[0]) {
        lemma_sorted_tail(s);
        lemma_bounded_prefix_sorted(s.drop_first(), upper);
        lemma_bounded_prefix_from(s.drop_first(), upper);
        assert forall|k: int|
            0 <= k < bounded_prefix(s.drop_first(), upper).len() implies !entry_before(
            #[trigger] bounded_prefix(s.drop_first(), upper)[k],
            s[0],
        ) by {
            let t = s.drop_first();
            let j = choose|j: int| 0 <= j < t.len() && t[j] == bounded_prefix(t, upper)[k];
            assert(t[j] == s[j + 1]);
        }
        lemma_sorted_cons(s[0], bounded_prefix(s.drop_first(), upper));
    }
}

/// Every entry of the bounded prefix of a list is an entry of the list.
pub proof fn lemma_bounded_prefix_from(s: Seq<Entry>, upper: Bound<(Seq<u8>, usize)>)
    ensures
        forall|k: int|
            0 <= k < bounded_prefix(s, upper).len() ==> exists|j: int|
                0 <= j < s.len() && s[j] == #[trigger] bounded_prefix(s, upper)[k],
    decreases s.len(),
{
    if s.len() > 0 && within(upper, s[0]) {
        let t = s.drop_first();
        lemma_bounded_prefix_from(t, upper);
        let bp = bounded_prefix(s, upper);
        let tp = bounded_prefix(t, upper);
        assert forall|k: int| 0 <= k < bp.len() implies exists|j: int|
            0 <= j < s.len() && s[j] == #[trigger] bp[k] by {
            if k == 0 {
                assert(s[0] == bp[0]);
            } else {
                assert(bp[k] == tp[k - 1]);
                let j = choose|j: int| 0 <= j < t.len() && t[j] == tp[k - 1];
                assert(s[j + 1] == bp[k]);
            }
        }
    }
}

/// The entries of the first `n` streams, as a multiset.
pub open spec fn union_upto(streams: Seq<Seq<Entry>>, n: int) -> Multiset<Entry>
    decreases n,
{
    if n <= 0 {
        Multiset::empty()
    } else {
        union_upto(streams, n - 1).add(streams[n - 1].to_multiset())
    }
}

/// The sources of a merge of streams that end cleanly, before the merge
/// has yielded anything.
pub open spec fn sources_of(streams: Seq<Seq<Entry>>) -> Seq<Source> {
    Seq::new(streams.len(), |i: int| primed(streams[i], true))
}

/// The sources of a merge hold what its streams held.
pub proof fn lemma_sources_hold(streams: Seq<Seq<Entry>>, n: int)
    requires
        0 <= n <= streams.len(),
    ensures
        held_upto(sources_of(streams), n) == union_upto(streams, n),
    decreases n,
{
    if n > 0 {
        lemma_sources_hold(streams, n - 1);
        assert(held(sources_of(streams)[n - 1]) =~= streams[n - 1]);
    }
}

/// The merge of sorted streams is a sorted stream that holds the entries of
/// all the streams, each as often as the streams hold it.
pub proof fn lemma_merge_of_sorted(streams: Seq<Seq<Entry>>)
    requires
        forall|i: int| 0 <= i < streams.len() ==> sorted(#[trigger] streams[i]),
    ensures
        sorted(merge_all(sources_of(streams))),
        merge_all(sources_of(streams)).to_multiset() == union_upto(
            streams,
            streams.len() as int,
        ),
{
    let srcs = sources_of(streams);
    assert forall|i: int| 0 <= i < srcs.len() implies orderly(#[trigger] srcs[i]) by {
        assert(held(srcs[i]) =~= streams[i]);
        assert(sorted(streams[i]));
    }
    lemma_merged_sorted(srcs, weight(srcs));
    lemma_merged_holds(srcs, weight(srcs));
    lemma_sources_hold(streams, streams.len() as int);
}

} // verus!
