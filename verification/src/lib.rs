//! A Stable Bloom Filter: an approximate-membership structure of fixed size
//! for unbounded streams, built on a bit-packed array of small counters.
//!
//! A classical Bloom filter fills up until every query is answered with
//! "member". A stable filter evicts a few cells before every insertion, so
//! that the share of empty cells settles at a fixed point; the price is that
//! an element may be forgotten.

use vstd::prelude::*;

pub mod bits;
pub mod buckets;
pub mod eviction;
pub mod fnv;
pub mod slots;
pub mod stable;

verus! {

/// An approximate set of byte strings.
pub trait Filter {
    /// What must hold of the filter before it is used.
    spec fn ready(&self) -> bool;

    /// Whether the filter, as it stands, takes `data` for a member.
    spec fn reports(&self, data: Seq<u8>) -> bool;

    /// Whether `data` is taken for a member. The filter is not changed.
    fn test(&self, data: &[u8]) -> (member: bool)
        requires
            self.ready(),
        ensures
            member == self.reports(data@),
    ;

    /// Inserts `data` and returns the filter.
    fn add(&mut self, data: &[u8]) -> (r: &Self)
        requires
            old(self).ready(),
        ensures
            final(self).ready(),
            r == &*final(self),
    ;

    /// Inserts `data` and says whether it was taken for a member before.
    fn test_and_add(&mut self, data: &[u8]) -> (member: bool)
        requires
            old(self).ready(),
        ensures
            final(self).ready(),
            member == old(self).reports(data@),
    ;
}

} // verus!
