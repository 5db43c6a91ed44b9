use crate::lex::{compare, copy_bytes, equal, lex_lt, Rank};
use std::cmp::Ordering;
use vstd::prelude::*;
use vstd::std_specs::cmp::{PartialEqSpecImpl, PartialOrdSpecImpl};

verus! {

/// A key with the time it was written. Keys order by their bytes; of two equal
/// keys the one with the larger timestamp comes first.
#[derive(Debug, Eq)]
pub struct TimestampedKey {
    key: Vec<u8>,
    timestamp_ms: usize,
}

/// The strict order on timestamped keys: bytes ascending, then timestamp
/// descending.
pub open spec fn stamped_lt(a_key: Seq<u8>, a_ts: usize, b_key: Seq<u8>, b_ts: usize) -> bool {
    lex_lt(a_key, b_key) || (a_key == b_key && a_ts > b_ts)
}

impl TimestampedKey {
    /// The bytes of the key.
    pub closed spec fn bytes(&self) -> Seq<u8> {
        self.key@
    }

    /// The timestamp of the key.
    pub closed spec fn timestamp(&self) -> usize {
        self.timestamp_ms
    }

    /// Whether this key sorts strictly before `other`.
    pub open spec fn precedes(&self, other: &TimestampedKey) -> bool {
        stamped_lt(self.bytes(), self.timestamp(), other.bytes(), other.timestamp())
    }

    /// A key with timestamp zero.
    pub fn new(key: Vec<u8>) -> (r: Self)
        ensures
            r.bytes() == key@,
            r.timestamp() == 0,
    {
        TimestampedKey { key, timestamp_ms: 0 }
    }

    /// A key with the given timestamp.
    pub fn with_timestamp(key: Vec<u8>, timestamp_ms: usize) -> (r: Self)
        ensures
            r.bytes() == key@,
            r.timestamp() == timestamp_ms,
    {
        TimestampedKey { key, timestamp_ms }
    }

    /// A copy of the key's bytes.
    pub fn get_key(&self) -> (r: Vec<u8>)
        ensures
            r@ == self.bytes(),
    {
        copy_bytes(self.key.as_slice())
    }

    /// The key's bytes, borrowed.
    pub fn key_ref(&self) -> (r: &Vec<u8>)
        ensures
            r@ == self.bytes(),
    {
        &self.key
    }

    /// The key's timestamp.
    pub fn get_timestamp(&self) -> (r: usize)
        ensures
            r == self.timestamp(),
    {
        self.timestamp_ms
    }

    /// Whether this key sorts strictly before `other`.
    pub fn is_before(&self, other: &TimestampedKey) -> (r: bool)
        ensures
            r == self.precedes(other),
    {
        match compare(self.key.as_slice(), other.key.as_slice()) {
            Rank::Before => true,
            Rank::Same => self.timestamp_ms > other.timestamp_ms,
            Rank::After => false,
        }
    }
}

impl Clone for TimestampedKey {
    fn clone(&self) -> (r: Self)
        ensures
            r.bytes() == self.bytes(),
            r.timestamp() == self.timestamp(),
    {
        TimestampedKey { key: copy_bytes(self.key.as_slice()), timestamp_ms: self.timestamp_ms }
    }
}

impl PartialEq for TimestampedKey {
    fn eq(&self, other: &Self) -> (r: bool) {
        equal(self.key.as_slice(), other.key.as_slice()) && self.timestamp_ms == other.timestamp_ms
    }
}

impl PartialEqSpecImpl for TimestampedKey {
    open spec fn obeys_eq_spec() -> bool {
        true
    }

    open spec fn eq_spec(&self, other: &Self) -> bool {
        self.bytes() == other.bytes() && self.timestamp() == other.timestamp()
    }
}

impl PartialOrd for TimestampedKey {
    fn partial_cmp(&self, other: &Self) -> (r: Option<Ordering>) {
        match compare(self.key.as_slice(), other.key.as_slice()) {
            Rank::Before => Some(Ordering::Less),
            Rank::Same => {
                if self.timestamp_ms > other.timestamp_ms {
                    Some(Ordering::Less)
                } else if self.timestamp_ms == other.timestamp_ms {
                    Some(Ordering::Equal)
                } else {
                    Some(Ordering::Greater)
                }
            },
            Rank::After => Some(Ordering::Greater),
        }
    }
}

impl PartialOrdSpecImpl for TimestampedKey {
    open spec fn obeys_partial_cmp_spec() -> bool {
        true
    }

    open spec fn partial_cmp_spec(&self, other: &Self) -> Option<Ordering> {
        if self.precedes(other) {
            Some(Ordering::Less)
        } else if self.bytes() == other.bytes() && self.timestamp() == other.timestamp() {
            Some(Ordering::Equal)
        } else {
            Some(Ordering::Greater)
        }
    }
}

} // verus!
