use crate::kv::timestamped_key::TimestampedKey;
use crate::lex::{compare, lex_le, lex_lt, Rank};
use std::ops::Bound;
use std::sync::Arc;
use vstd::prelude::*;

verus! {

/// The bound of a range of std, with its three variants.
#[verifier::external_type_specification]
#[verifier::reject_recursive_types(T)]
pub struct ExBound<T>(Bound<T>);

/// `Arc::clone`: another handle on the same value.
#[verifier::external_body]
pub(crate) fn share<T>(handle: &Arc<T>) -> (r: Arc<T>)
    ensures
        r == *handle,
{
    Arc::clone(handle)
}

/// Whether `key` lies at or above a lower bound.
pub open spec fn above_lower(lower: Bound<&[u8]>, key: Seq<u8>) -> bool {
    match lower {
        Bound::Included(b) => lex_le(b@, key),
        Bound::Excluded(b) => lex_lt(b@, key),
        Bound::Unbounded => true,
    }
}

/// Whether `key` lies at or below an upper bound.
pub open spec fn below_upper(upper: Bound<&[u8]>, key: Seq<u8>) -> bool {
    match upper {
        Bound::Included(b) => lex_le(key, b@),
        Bound::Excluded(b) => lex_lt(key, b@),
        Bound::Unbounded => true,
    }
}

/// Whether the query range, from `query_lower` to `query_upper`, and the
/// closed target range, from `target_lower` to `target_upper`, can share a
/// key: the query does not end before the target begins, and does not begin
/// after the target ends.
pub open spec fn ranges_overlap(
    query_lower: Bound<&[u8]>,
    query_upper: Bound<&[u8]>,
    target_lower: Seq<u8>,
    target_upper: Seq<u8>,
) -> bool {
    below_upper(query_upper, target_lower) && above_lower(query_lower, target_upper)
}

/// Whether a query range overlaps the closed range between two keys.
pub fn range_overlap(
    query_lower: Bound<&[u8]>,
    query_upper: Bound<&[u8]>,
    target_lower: TimestampedKey,
    target_upper: TimestampedKey,
) -> (r: bool)
    ensures
        r == ranges_overlap(query_lower, query_upper, target_lower.bytes(), target_upper.bytes()),
{
    let disjoint_lesser = match query_upper {
        Bound::Included(upper) => match compare(upper, target_lower.key_ref().as_slice()) {
            Rank::Before => true,
            _ => false,
        },
        Bound::Excluded(upper) => match compare(upper, target_lower.key_ref().as_slice()) {
            Rank::After => false,
            _ => true,
        },
        Bound::Unbounded => false,
    };
    let disjoint_greater = match query_lower {
        Bound::Included(lower) => match compare(lower, target_upper.key_ref().as_slice()) {
            Rank::After => true,
            _ => false,
        },
        Bound::Excluded(lower) => match compare(lower, target_upper.key_ref().as_slice()) {
            Rank::Before => false,
            _ => true,
        },
        Bound::Unbounded => false,
    };
    !disjoint_lesser && !disjoint_greater
}

/// The decimal digits of `n` as ASCII bytes, most significant first.
pub open spec fn decimal_of(n: nat) -> Seq<u8>
    decreases n,
{
    if n < 10 {
        seq![(48 + n) as u8]
    } else {
        decimal_of(n / 10).push((48 + n % 10) as u8)
    }
}

/// The decimal digits of `n` as ASCII bytes.
pub fn decimal(n: usize) -> (r: Vec<u8>)
    ensures
        r@ == decimal_of(n as nat),
    decreases n,
{
    if n < 10 {
        let mut r: Vec<u8> = Vec::new();
        r.push(48 + n as u8);
        assert(r@ =~= decimal_of(n as nat));
        r
    } else {
        let mut r = decimal(n / 10);
        r.push(48 + (n % 10) as u8);
        r
    }
}

/// A byte string with zeros in front to make it `width` bytes long; a
/// string that is as long or longer stays as it is.
pub open spec fn zero_padded(digits: Seq<u8>, width: nat) -> Seq<u8> {
    if digits.len() >= width {
        digits
    } else {
        Seq::new((width - digits.len()) as nat, |i: int| 48u8) + digits
    }
}

/// The name of the file of the table with id `id`: the id in decimal,
/// padded with zeros to five digits, followed by `.sst`.
pub open spec fn sst_file_name_of(id: nat) -> Seq<u8> {
    zero_padded(decimal_of(id), 5) + seq![46u8, 115u8, 115u8, 116u8]
}

/// The name, in ASCII, of the file of the table with id `sst_id`.
pub fn sst_file_name(sst_id: usize) -> (r: Vec<u8>)
    ensures
        r@ == sst_file_name_of(sst_id as nat),
{
    let digits = decimal(sst_id);
    let mut name: Vec<u8> = Vec::new();
    let mut i: usize = digits.len();
    while i < 5
        invariant
            digits@.len() <= i,
            digits@.len() < 5 ==> i <= 5,
            digits@.len() >= 5 ==> i == digits@.len(),
            name@ == Seq::new((i - digits@.len()) as nat, |j: int| 48u8),
        decreases 5 - i,
    {
        name.push(48);
        assert(name@ =~= Seq::new((i + 1 - digits@.len()) as nat, |j: int| 48u8));
        i += 1;
    }
    let mut digits = digits;
    let ghost d = digits@;
    name.append(&mut digits);
    name.push(46);
    name.push(115);
    name.push(115);
    name.push(116);
    assert(name@ =~= sst_file_name_of(sst_id as nat));
    name
}

} // verus!
