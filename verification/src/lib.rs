//! netrangemerge minimizes a list of CIDR ranges: overlapping ranges are
//! collapsed into the containing range and sibling ranges are coalesced
//! into their common parent, in place and without allocation.  Each range
//! carries a caller-defined "selected" flag; a merged range is selected
//! exactly when one of the ranges merged into it was.
//!
//! A CIDR range is any type that implements the [`Range`] trait; the crate
//! ships [`IpRange`], [`Ipv4Range`] and [`Ipv6Range`].  A list of ranges,
//! each wrapped in a [`RangeInterest`], is merged with [`merge_ranges`] or
//! [`merge_ranges_slice`].

use vstd::prelude::*;

pub mod block;
pub mod expand;
pub mod lines;
pub mod merge;
pub mod network;
pub mod network_interest;
pub mod options;
pub mod range;
pub mod range_interest;
pub mod std_range;

pub use expand::expand_ranges;
pub use lines::parse_single_line_ranges;
pub use merge::merge_ranges_slice;
pub use network::Network;
pub use network_interest::NetworkInterest;
pub use options::{
    CloudFilterHelpOptions, CloudGetMergeOptions, CloudGetOptions, CloudGetReadOptions,
    CloudMergeOptions, CloudName, CloudReadOptions, MergeOptions, MetadataValue,
    RangesWithMetadata,
};
pub use range::Range;
pub use range_interest::RangeInterest;
pub use std_range::{
    InvalidHostAddressError, InvalidPrefixLengthError, InvalidRangeError, IpAddress, IpRange,
    Ipv4Range, Ipv6Range, RangeParseError, UnparseableRangeError,
};

verus! {

use crate::merge::{cov_r, entries_ok, icov_r, live_merged, meets};

/// Merges all provided ranges in place.  The input is truncated to the
/// number of valid ranges post merging.
///
/// The remaining entries cover exactly the addresses the input covered;
/// an entry is selected exactly when it shares an address with a
/// selected input entry; no two entries overlap and no two could merge
/// further; there are at most as many entries as before; and merging an
/// already-merged list only reorders it.
pub fn merge_ranges<R: Range>(ranges: &mut Vec<RangeInterest<R>>)
    requires
        forall|i: int| 0 <= i < old(ranges)@.len() ==> (#[trigger] old(ranges)@[i]).ok(),
    ensures
        final(ranges)@.len() <= old(ranges)@.len(),
        entries_ok(final(ranges)@, 0, final(ranges)@.len() as int),
        cov_r(final(ranges)@, 0, final(ranges)@.len() as int) == cov_r(
            old(ranges)@,
            0,
            old(ranges)@.len() as int,
        ),
        icov_r(old(ranges)@, 0, old(ranges)@.len() as int).subset_of(
            icov_r(final(ranges)@, 0, final(ranges)@.len() as int),
        ),
        forall|i: int|
            0 <= i < final(ranges)@.len() ==> ((#[trigger] final(ranges)@[i]).sel() <==> meets(
                final(ranges)@[i].blk(),
                icov_r(old(ranges)@, 0, old(ranges)@.len() as int),
            )),
        live_merged(final(ranges)@, 0, final(ranges)@.len() as int),
        live_merged(old(ranges)@, 0, old(ranges)@.len() as int) ==> final(ranges)@.to_multiset()
            == old(ranges)@.to_multiset(),
{
    let ghost s0 = old(ranges)@;
    let len = merge_ranges_slice(ranges);
    let ghost mid = ranges@;
    ranges.truncate(len);
    proof {
        let ki = len as int;
        assert(ranges@ =~= mid.subrange(0, ki));
        assert(forall|i: int| 0 <= i < ki ==> #[trigger] ranges@[i] == mid[i]);
        assert(cov_r(ranges@, 0, ki) =~= cov_r(mid, 0, ki)) by {
            assert forall|p: (bool, int)| cov_r(ranges@, 0, ki).contains(p) implies cov_r(
                mid,
                0,
                ki,
            ).contains(p) by {
                let j = choose|j: int| 0 <= j < ki && crate::merge::covp(#[trigger] ranges@[j], p);
                assert(crate::merge::covp(mid[j], p));
            }
            assert forall|p: (bool, int)| cov_r(mid, 0, ki).contains(p) implies cov_r(
                ranges@,
                0,
                ki,
            ).contains(p) by {
                let j = choose|j: int| 0 <= j < ki && crate::merge::covp(#[trigger] mid[j], p);
                assert(crate::merge::covp(ranges@[j], p));
            }
        }
        assert(icov_r(ranges@, 0, ki) =~= icov_r(mid, 0, ki)) by {
            assert forall|p: (bool, int)| icov_r(ranges@, 0, ki).contains(p) implies icov_r(
                mid,
                0,
                ki,
            ).contains(p) by {
                let j = choose|j: int|
                    0 <= j < ki && crate::merge::covp(#[trigger] ranges@[j], p)
                        && ranges@[j].sel();
                assert(crate::merge::covp(mid[j], p) && mid[j].sel());
            }
            assert forall|p: (bool, int)| icov_r(mid, 0, ki).contains(p) implies icov_r(
                ranges@,
                0,
                ki,
            ).contains(p) by {
                let j = choose|j: int|
                    0 <= j < ki && crate::merge::covp(#[trigger] mid[j], p) && mid[j].sel();
                assert(crate::merge::covp(ranges@[j], p) && ranges@[j].sel());
            }
        }
        if live_merged(s0, 0, s0.len() as int) {
            assert(s0.subrange(0, s0.len() as int) =~= s0);
            assert(ranges@.to_multiset() == s0.to_multiset()) by {
                assert(ranges@ =~= mid.subrange(0, ki));
            }
        }
    }
}

} // verus!
