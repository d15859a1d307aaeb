//! The older name of the range abstraction, kept for callers that still
//! use it: a `Network` is a CIDR range with the prefix length under the
//! name `network_length`.

use vstd::prelude::*;

verus! {

use crate::block::{block_contains, has_parent, parent_block, wf_block, Block};

/// A CIDR range of some address family, under the older vocabulary.
/// New code should implement [`Range`](crate::Range) instead; the two
/// abstractions describe a value by the same [`Block`] model.
pub trait Network: Sized {
    /// The block this value denotes.
    spec fn block(&self) -> Block;

    /// The type's representation invariant.
    spec fn inv(&self) -> bool;

    /// A well-formed network always denotes a well-formed block.
    proof fn lemma_inv(&self)
        requires
            self.inv(),
        ensures
            wf_block(self.block()),
    ;

    /// The first address of the range, as the family's ordered integer
    /// value (an IPv4 address is widened to 128 bits).
    fn host_address(&self) -> (a: u128)
        requires
            self.inv(),
        ensures
            a as int == self.block().addr,
    ;

    /// The prefix length of the range.
    fn network_length(&self) -> (p: u8)
        requires
            self.inv(),
        ensures
            p as int == self.block().plen,
    ;

    /// `true` for an IPv6 range, `false` for an IPv4 range.
    fn is_ipv6(&self) -> (r: bool)
        requires
            self.inv(),
        ensures
            r == self.block().v6,
    ;

    /// Whether every address of `other` lies in `self`.  The two ranges
    /// must be of one family.
    fn contains(&self, other: &Self) -> (r: bool)
        requires
            self.inv(),
            other.inv(),
            self.block().v6 == other.block().v6,
        ensures
            r == block_contains(self.block(), other.block()),
    ;

    /// The next larger range, if this range is the low half of one.
    fn embiggen(&self) -> (r: Option<Self>)
        requires
            self.inv(),
        ensures
            match r {
                Some(p) => has_parent(self.block()) && p.inv() && p.block() == parent_block(
                    self.block(),
                ),
                None => !has_parent(self.block()),
            },
    ;
}

impl Network for crate::std_range::IpRange {
    closed spec fn block(&self) -> Block {
        crate::range::Range::block(self)
    }

    closed spec fn inv(&self) -> bool {
        crate::range::Range::inv(self)
    }

    proof fn lemma_inv(&self) {
        crate::range::Range::lemma_inv(self);
    }

    fn host_address(&self) -> (a: u128) {
        crate::range::Range::host_address(self)
    }

    fn network_length(&self) -> (p: u8) {
        crate::range::Range::prefix_length(self)
    }

    fn is_ipv6(&self) -> (r: bool) {
        crate::range::Range::is_ipv6(self)
    }

    fn contains(&self, other: &Self) -> (r: bool) {
        crate::range::Range::contains(self, other)
    }

    fn embiggen(&self) -> (r: Option<Self>) {
        crate::range::Range::embiggen(self)
    }
}

} // verus!
