//! The abstraction over address-family-specific CIDR range types.

use vstd::prelude::*;

verus! {

use crate::block::{block_contains, has_parent, parent_block, wf_block, Block};

/// A CIDR range of some address family.  The merge engine works against
/// this trait alone; the crate ships [`IpRange`](crate::IpRange),
/// [`Ipv4Range`](crate::Ipv4Range) and [`Ipv6Range`](crate::Ipv6Range),
/// and a caller may implement the trait for a range type of its own.
///
/// Every value of an implementing type denotes a [`Block`]; the methods
/// are specified against that model.  A well-formed value (one whose
/// `inv` holds) always denotes a well-formed, canonically aligned block:
/// constructors of implementing types must reject non-aligned addresses.
pub trait Range: Sized {
    /// The block this value denotes.
    spec fn block(&self) -> Block;

    /// The type's representation invariant.
    spec fn inv(&self) -> bool;

    /// A well-formed range always denotes a well-formed block.
    proof fn lemma_inv(&self)
        requires
            self.inv(),
        ensures
            wf_block(self.block()),
    ;

    /// The first address of the range, as the family's ordered integer
    /// value (an IPv4 address is widened to 128 bits).
    fn host_address(&self) -> (a: u128)
        requires
            self.inv(),
        ensures
            a as int == self.block().addr,
    ;

    /// The prefix length of the range.
    fn prefix_length(&self) -> (p: u8)
        requires
            self.inv(),
        ensures
            p as int == self.block().plen,
    ;

    /// `true` for an IPv6 range, `false` for an IPv4 range.
    fn is_ipv6(&self) -> (r: bool)
        requires
            self.inv(),
        ensures
            r == self.block().v6,
    ;

    /// Whether every address of `other` lies in `self`.  The two ranges
    /// must be of one family; the merge engine guards this.
    fn contains(&self, other: &Self) -> (r: bool)
        requires
            self.inv(),
            other.inv(),
            self.block().v6 == other.block().v6,
        ensures
            r == block_contains(self.block(), other.block()),
    ;

    /// The next larger range, if this range is the low half of one.
    fn embiggen(&self) -> (r: Option<Self>)
        requires
            self.inv(),
        ensures
            match r {
                Some(p) => has_parent(self.block()) && p.inv() && p.block() == parent_block(
                    self.block(),
                ),
                None => !has_parent(self.block()),
            },
    ;
}

} // verus!
