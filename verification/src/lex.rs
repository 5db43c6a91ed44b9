//! Unsigned lexicographic order on byte strings, as specification and as
//! executable comparison.

use vstd::prelude::*;

verus! {

/// The length of the longest common prefix of `a` and `b`, counted from
/// position `from`, up to which the two already agree.
pub open spec fn common_prefix_from(a: Seq<u8>, b: Seq<u8>, from: int) -> int
    decreases a.len() - from,
{
    if 0 <= from < a.len() && from < b.len() && a[from] == b[from] {
        common_prefix_from(a, b, from + 1)
    } else {
        from
    }
}

/// The length of the longest common prefix of `a` and `b`.
pub open spec fn common_prefix_len(a: Seq<u8>, b: Seq<u8>) -> int {
    common_prefix_from(a, b, 0)
}

/// `a` sorts strictly before `b`: at the first position where they differ `a`
/// holds the smaller byte, or `a` is a proper prefix of `b`.
pub open spec fn lex_lt(a: Seq<u8>, b: Seq<u8>) -> bool {
    let p = common_prefix_len(a, b);
    if p >= b.len() {
        false
    } else if p >= a.len() {
        true
    } else {
        a[p] < b[p]
    }
}

/// `a` sorts before `b` or equals it.
pub open spec fn lex_le(a: Seq<u8>, b: Seq<u8>) -> bool {
    !lex_lt(b, a)
}

/// `p` is where `a` and `b` first differ: they agree below `p`, and at `p`
/// one of them ends or their bytes differ.
pub open spec fn first_difference(a: Seq<u8>, b: Seq<u8>, p: int) -> bool {
    &&& 0 <= p <= a.len()
    &&& p <= b.len()
    &&& forall|i: int| 0 <= i < p ==> a[i] == b[i]
    &&& (p == a.len() || p == b.len() || a[p] != b[p])
}

/// The common prefix length counted from `from` is the first difference,
/// provided the strings agree below `from`.
pub proof fn lemma_common_prefix_from(a: Seq<u8>, b: Seq<u8>, from: int)
    requires
        0 <= from <= a.len(),
        from <= b.len(),
        forall|i: int| 0 <= i < from ==> a[i] == b[i],
    ensures
        first_difference(a, b, common_prefix_from(a, b, from)),
        common_prefix_from(a, b, from) >= from,
    decreases a.len() - from,
{
    if from < a.len() && from < b.len() && a[from] == b[from] {
        lemma_common_prefix_from(a, b, from + 1);
    }
}

/// The common prefix length is the first difference of the two strings.
pub proof fn lemma_common_prefix(a: Seq<u8>, b: Seq<u8>)
    ensures
        first_difference(a, b, common_prefix_len(a, b)),
{
    lemma_common_prefix_from(a, b, 0);
}

/// Two strings have only one first difference.
pub proof fn lemma_first_difference_unique(a: Seq<u8>, b: Seq<u8>, p: int, q: int)
    requires
        first_difference(a, b, p),
        first_difference(a, b, q),
    ensures
        p == q,
{
    if p < q {
        assert(a[p] == b[p]);
    } else if q < p {
        assert(a[q] == b[q]);
    }
}

/// A position that is the first difference is the common prefix length.
pub proof fn lemma_common_prefix_is(a: Seq<u8>, b: Seq<u8>, p: int)
    requires
        first_difference(a, b, p),
    ensures
        common_prefix_len(a, b) == p,
{
    lemma_common_prefix(a, b);
    lemma_first_difference_unique(a, b, p, common_prefix_len(a, b));
}

/// The common prefix length does not depend on the order of the strings.
pub proof fn lemma_common_prefix_symmetric(a: Seq<u8>, b: Seq<u8>)
    ensures
        common_prefix_len(a, b) == common_prefix_len(b, a),
{
    lemma_common_prefix(a, b);
    lemma_common_prefix(b, a);
    let p = common_prefix_len(a, b);
    let q = common_prefix_len(b, a);
    if p < q {
        assert(b[p] == a[p]);
    } else if q < p {
        assert(a[q] == b[q]);
    }
}

/// No string sorts before itself.
pub proof fn lemma_lex_lt_irreflexive(a: Seq<u8>)
    ensures
        !lex_lt(a, a),
{
    lemma_common_prefix_is(a, a, a.len() as int);
}

/// Of two strings exactly one holds: the first sorts before the second, they
/// are equal, or the second sorts before the first.
pub proof fn lemma_lex_trichotomy(a: Seq<u8>, b: Seq<u8>)
    ensures
        lex_lt(a, b) || a == b || lex_lt(b, a),
        !(lex_lt(a, b) && lex_lt(b, a)),
        a == b ==> !lex_lt(a, b) && !lex_lt(b, a),
{
    lemma_common_prefix(a, b);
    lemma_common_prefix_symmetric(a, b);
    lemma_lex_lt_irreflexive(a);
    let p = common_prefix_len(a, b);
    if p == a.len() && p == b.len() {
        assert(a =~= b);
    }
}

/// The strict order is transitive.
pub proof fn lemma_lex_lt_transitive(a: Seq<u8>, b: Seq<u8>, c: Seq<u8>)
    requires
        lex_lt(a, b),
        lex_lt(b, c),
    ensures
        lex_lt(a, c),
{
    lemma_common_prefix(a, b);
    lemma_common_prefix(b, c);
    let p = common_prefix_len(a, b);
    let q = common_prefix_len(b, c);
    let r = if p <= q { p } else { q };
    assert forall|i: int| 0 <= i < r implies a[i] == c[i] by {
        assert(a[i] == b[i]);
        assert(b[i] == c[i]);
    }
    if p < q {
        assert(b[p] == c[p]);
    } else if q < p {
        assert(a[q] == b[q]);
    }
    lemma_common_prefix_is(a, c, r);
}

/// A string that sorts before or equal to a second, which sorts strictly
/// before a third, sorts strictly before the third.
pub proof fn lemma_lex_le_lt_transitive(a: Seq<u8>, b: Seq<u8>, c: Seq<u8>)
    requires
        lex_le(a, b),
        lex_lt(b, c),
    ensures
        lex_lt(a, c),
{
    lemma_lex_trichotomy(a, b);
    if a != b {
        lemma_lex_lt_transitive(a, b, c);
    }
}

/// A string that sorts strictly before a second, which sorts before or equal
/// to a third, sorts strictly before the third.
pub proof fn lemma_lex_lt_le_transitive(a: Seq<u8>, b: Seq<u8>, c: Seq<u8>)
    requires
        lex_lt(a, b),
        lex_le(b, c),
    ensures
        lex_lt(a, c),
{
    lemma_lex_trichotomy(b, c);
    if b != c {
        lemma_lex_lt_transitive(a, b, c);
    }
}

/// How one byte string stands to another in lexicographic order.
#[derive(Debug, Clone, Copy, PartialEq, Eq, Structural)]
pub enum Rank {
    Before,
    Same,
    After,
}

/// What `compare` returns on `a` and `b`.
pub open spec fn rank_of(a: Seq<u8>, b: Seq<u8>) -> Rank {
    if lex_lt(a, b) {
        Rank::Before
    } else if a == b {
        Rank::Same
    } else {
        Rank::After
    }
}

/// The length of the longest common prefix of two byte strings.
pub fn shared_prefix_len(a: &[u8], b: &[u8]) -> (n: usize)
    ensures
        n == common_prefix_len(a@, b@),
{
    let mut i: usize = 0;
    while i < a.len() && i < b.len() && a[i] == b[i]
        invariant
            i <= a.len(),
            i <= b.len(),
            forall|j: int| 0 <= j < i ==> a@[j] == b@[j],
        decreases a.len() - i,
    {
        i += 1;
    }
    proof {
        lemma_common_prefix_is(a@, b@, i as int);
    }
    i
}

/// Compares two byte strings in unsigned lexicographic order.
pub fn compare(a: &[u8], b: &[u8]) -> (r: Rank)
    ensures
        r == rank_of(a@, b@),
        r == Rank::After <==> lex_lt(b@, a@),
{
    let p = shared_prefix_len(a, b);
    proof {
        lemma_common_prefix(a@, b@);
        lemma_lex_trichotomy(a@, b@);
    }
    if p >= b.len() {
        if p >= a.len() {
            assert(a@ =~= b@);
            Rank::Same
        } else {
            Rank::After
        }
    } else if p >= a.len() {
        Rank::Before
    } else if a[p] < b[p] {
        Rank::Before
    } else {
        Rank::After
    }
}

/// Whether two byte strings are equal.
pub fn equal(a: &[u8], b: &[u8]) -> (r: bool)
    ensures
        r == (a@ == b@),
{
    if a.len() != b.len() {
        return false;
    }
    let p = shared_prefix_len(a, b);
    proof {
        lemma_common_prefix(a@, b@);
        if p == a.len() {
            assert(a@ =~= b@);
        }
    }
    p == a.len()
}

/// A copy of a byte string.
pub fn copy_bytes(a: &[u8]) -> (r: Vec<u8>)
    ensures
        r@ == a@,
{
    let mut r: Vec<u8> = Vec::new();
    let mut i: usize = 0;
    while i < a.len()
        invariant
            i <= a.len(),
            r@ == a@.subrange(0, i as int),
        decreases a.len() - i,
    {
        r.push(a[i]);
        assert(a@.subrange(0, i as int).push(a@[i as int]) =~= a@.subrange(0, i + 1));
        i += 1;
    }
    assert(a@.subrange(0, a.len() as int) =~= a@);
    r
}

/// An optional byte string as mathematics.
pub open spec fn bytes_opt(o: Option<Vec<u8>>) -> Option<Seq<u8>> {
    match o {
        Some(v) => Some(v@),
        None => None,
    }
}

} // verus!
