//! The in-place merge engine.
//!
//! [`merge_ranges_slice`] minimizes a list of interest-tagged ranges in
//! three phases, separately per address family: overlap elimination
//! (a contained range is absorbed into its container), adjacency
//! coalescing (two sibling ranges are replaced by their parent, smallest
//! ranges first, level by level), and compaction of the tombstoned slots.
//!
//! The contracts are stated over the family-tagged sets of addresses the
//! entries cover: the merged list covers exactly the addresses the input
//! covered, an output entry is selected exactly when it shares an address
//! with a selected input entry, no two output entries overlap or could
//! combine into a parent block, and merging an already-merged list only
//! permutes it.

use vstd::prelude::*;

verus! {

use vstd::seq_lib::group_to_multiset_ensures;
use crate::block::{
    block_contains, block_size, blocks_disjoint, covers, has_parent, lemma_block_size_pos,
    lemma_contains_plen, lemma_mergeable_is_buddy, lemma_nested_or_disjoint, lemma_parent_block,
    parent_block, sibling_mergeable, Block,
};
use crate::range::Range;
use crate::range_interest::RangeInterest;

/// The order of the initial sort: IPv4 before IPv6, then ascending
/// address, then ascending prefix length (larger blocks first).
pub open spec fn before_le<R: Range>(a: RangeInterest<R>, b: RangeInterest<R>) -> bool {
    let x = a.blk();
    let y = b.blk();
    ||| (!x.v6 && y.v6)
    ||| (x.v6 == y.v6 && x.addr < y.addr)
    ||| (x.v6 == y.v6 && x.addr == y.addr && x.plen <= y.plen)
}

/// The order of the coalescing phase, within one family: descending
/// prefix length (smaller blocks first), then ascending address.
pub open spec fn during_le<R: Range>(a: RangeInterest<R>, b: RangeInterest<R>) -> bool {
    let x = a.blk();
    let y = b.blk();
    ||| x.plen > y.plen
    ||| (x.plen == y.plen && x.addr <= y.addr)
}

/// Whether the entry is a valid range covering the family-tagged point `p`.
pub open spec fn covp<R: Range>(e: RangeInterest<R>, p: (bool, int)) -> bool {
    e.is_normal() && p.0 == e.blk().v6 && covers(e.blk(), p.1)
}

/// The family-tagged addresses covered by the valid entries of `s[lo..hi]`.
pub open spec fn cov_r<R: Range>(s: Seq<RangeInterest<R>>, lo: int, hi: int) -> Set<(bool, int)> {
    Set::new(|p: (bool, int)| exists|j: int| lo <= j < hi && covp(#[trigger] s[j], p))
}

/// The family-tagged addresses covered by the selected valid entries.
pub open spec fn icov_r<R: Range>(s: Seq<RangeInterest<R>>, lo: int, hi: int) -> Set<(bool, int)> {
    Set::new(
        |p: (bool, int)| exists|j: int| lo <= j < hi && covp(#[trigger] s[j], p) && s[j].sel(),
    )
}

/// Whether block `b` shares an address with the point set `ps`.
pub open spec fn meets(b: Block, ps: Set<(bool, int)>) -> bool {
    exists|x: int| covers(b, x) && ps.contains((b.v6, x))
}

/// Every entry of the region is valid and well formed.
pub open spec fn entries_ok<R: Range>(s: Seq<RangeInterest<R>>, lo: int, hi: int) -> bool {
    forall|i: int| lo <= i < hi ==> (#[trigger] s[i]).ok()
}

/// Every valid entry of the region is well formed.
pub open spec fn live_ok<R: Range>(s: Seq<RangeInterest<R>>, lo: int, hi: int) -> bool {
    forall|i: int| lo <= i < hi && (#[trigger] s[i]).is_normal() ==> s[i].ok()
}

/// Every valid entry of the region is of family `f`.
pub open spec fn live_family<R: Range>(s: Seq<RangeInterest<R>>, lo: int, hi: int, f: bool) -> bool {
    forall|i: int| lo <= i < hi && (#[trigger] s[i]).is_normal() ==> s[i].blk().v6 == f
}

/// The valid entries of the region are pairwise disjoint.
pub open spec fn live_disjoint<R: Range>(s: Seq<RangeInterest<R>>, lo: int, hi: int) -> bool {
    forall|i: int, j: int|
        lo <= i < hi && lo <= j < hi && i != j && (#[trigger] s[i]).is_normal()
            && (#[trigger] s[j]).is_normal() ==> blocks_disjoint(s[i].blk(), s[j].blk())
}

/// The valid entries of the region are pairwise disjoint and no two of
/// them are siblings that could combine into a single parent block: the
/// region is fully merged.
pub open spec fn live_merged<R: Range>(s: Seq<RangeInterest<R>>, lo: int, hi: int) -> bool {
    forall|i: int, j: int|
        lo <= i < hi && lo <= j < hi && i != j && (#[trigger] s[i]).is_normal()
            && (#[trigger] s[j]).is_normal() ==> blocks_disjoint(s[i].blk(), s[j].blk())
            && !sibling_mergeable(s[i].blk(), s[j].blk())
}

/// No valid entry of the region is selected without sharing an address
/// with the point set `base`.
pub open spec fn no_spurious<R: Range>(
    s: Seq<RangeInterest<R>>,
    lo: int,
    hi: int,
    base: Set<(bool, int)>,
) -> bool {
    forall|i: int|
        lo <= i < hi && (#[trigger] s[i]).is_normal() && s[i].sel() ==> meets(s[i].blk(), base)
}

/// The region is sorted by the initial sort order.
pub open spec fn sorted_before<R: Range>(s: Seq<RangeInterest<R>>, lo: int, hi: int) -> bool {
    forall|i: int, j: int| lo <= i < j < hi ==> before_le(#[trigger] s[i], #[trigger] s[j])
}

/// The region is sorted by the coalescing sort order.
pub open spec fn sorted_during<R: Range>(s: Seq<RangeInterest<R>>, lo: int, hi: int) -> bool {
    forall|i: int, j: int| lo <= i < j < hi ==> during_le(#[trigger] s[i], #[trigger] s[j])
}

/// Everything outside the region is unchanged between `s0` and `s`.
pub open spec fn untouched<R: Range>(
    s0: Seq<RangeInterest<R>>,
    s: Seq<RangeInterest<R>>,
    lo: int,
    hi: int,
) -> bool {
    s.len() == s0.len() && forall|i: int|
        0 <= i < s.len() && !(lo <= i < hi) ==> s[i] == #[trigger] s0[i]
}

/// All valid entries of the region are of one family.
pub open spec fn one_family<R: Range>(s: Seq<RangeInterest<R>>, lo: int, hi: int) -> bool {
    forall|p: int, q: int|
        lo <= p < hi && lo <= q < hi && (#[trigger] s[p]).is_normal() && (
        #[trigger] s[q]).is_normal() ==> s[p].blk().v6 == s[q].blk().v6
}

/// The valid entries of a sequence, in order.
pub open spec fn lives<R: Range>(s: Seq<RangeInterest<R>>) -> Seq<RangeInterest<R>> {
    s.filter(|e: RangeInterest<R>| e.is_normal())
}

/// The order of `a` before `b` in a run sorted by ascending address and
/// then ascending prefix length.
pub open spec fn addr_plen_le(a: Block, b: Block) -> bool {
    a.addr < b.addr || (a.addr == b.addr && a.plen <= b.plen)
}

/// No two valid entries of the region with prefix length `pk` are
/// siblings that could combine.
pub open spec fn level_merged<R: Range>(
    s: Seq<RangeInterest<R>>,
    lo: int,
    hi: int,
    pk: int,
) -> bool {
    forall|p: int, q: int|
        lo <= p < hi && lo <= q < hi && p != q && (#[trigger] s[p]).is_normal() && (
        #[trigger] s[q]).is_normal() && s[p].blk().plen == pk && s[q].blk().plen == pk
            ==> !sibling_mergeable(s[p].blk(), s[q].blk())
}

/// Every valid entry of the region has prefix length at most `pk`.
pub open spec fn level_bound<R: Range>(
    s: Seq<RangeInterest<R>>,
    lo: int,
    hi: int,
    pk: int,
) -> bool {
    forall|i: int| lo <= i < hi && (#[trigger] s[i]).is_normal() ==> s[i].blk().plen <= pk
}

/// A block always covers its own first address.
proof fn lemma_covers_self(b: Block)
    ensures
        covers(b, b.addr),
{
    vstd::arithmetic::power2::lemma_pow2_pos((crate::block::family_width(b.v6) - b.plen) as nat);
}

/// Disjoint blocks share no address; non-disjoint blocks of one family
/// share the larger of their first addresses.
proof fn lemma_disjoint_points(a: Block, b: Block)
    ensures
        blocks_disjoint(a, b) && a.v6 == b.v6 ==> forall|x: int| !(covers(a, x) && covers(b, x)),
        !blocks_disjoint(a, b) ==> a.v6 == b.v6 && covers(
            a,
            if a.addr >= b.addr {
                a.addr
            } else {
                b.addr
            },
        ) && covers(
            b,
            if a.addr >= b.addr {
                a.addr
            } else {
                b.addr
            },
        ),
{
    lemma_covers_self(a);
    lemma_covers_self(b);
}

/// Disjointness rules containment out.
proof fn lemma_disjoint_not_contains(a: Block, b: Block)
    ensures
        blocks_disjoint(a, b) ==> !block_contains(a, b) && !block_contains(b, a),
{
    vstd::arithmetic::power2::lemma_pow2_pos((crate::block::family_width(a.v6) - a.plen) as nat);
    vstd::arithmetic::power2::lemma_pow2_pos((crate::block::family_width(b.v6) - b.plen) as nat);
}

/// A sequence with two distinct positions holding `e` counts `e` at
/// least twice in its multiset.
proof fn lemma_two_indices_count<A>(s: Seq<A>, i: int, j: int)
    requires
        0 <= i < s.len(),
        0 <= j < s.len(),
        i != j,
        s[i] == s[j],
    ensures
        s.to_multiset().count(s[i]) >= 2,
{
    broadcast use group_to_multiset_ensures;

    let t = s.remove(i);
    let j2: int = if j < i {
        j
    } else {
        j - 1
    };
    assert(t[j2] == s[j]);
    assert(t.contains(s[j]));
    assert(t.to_multiset().count(s[i]) > 0);
    assert(t.to_multiset() =~= s.to_multiset().remove(s[i]));
}

/// A value counted at least twice appears at two distinct positions.
proof fn lemma_count_two_indices<A>(s: Seq<A>, e: A)
    requires
        s.to_multiset().count(e) >= 2,
    ensures
        exists|i: int, j: int|
            0 <= i < s.len() && 0 <= j < s.len() && i != j && s[i] == e && s[j] == e,
{
    broadcast use group_to_multiset_ensures;

    assert(s.contains(e));
    let i = choose|i: int| 0 <= i < s.len() && s[i] == e;
    let t = s.remove(i);
    assert(t.to_multiset() =~= s.to_multiset().remove(e));
    assert(t.to_multiset().count(e) >= 1);
    assert(t.contains(e));
    let j2 = choose|j2: int| 0 <= j2 < t.len() && t[j2] == e;
    let j: int = if j2 < i {
        j2
    } else {
        j2 + 1
    };
    assert(t[j2] == s[j]);
    assert(0 <= j < s.len() && j != i && s[j] == e);
}

/// Value-level facts carry over between sequences with equal multisets:
/// coverage, validity, family, selection soundness, disjointness and
/// mergedness are all determined by which entries occur.
proof fn lemma_perm_facts<R: Range>(s1: Seq<RangeInterest<R>>, s2: Seq<RangeInterest<R>>)
    requires
        s1.to_multiset() == s2.to_multiset(),
    ensures
        cov_r(s1, 0, s1.len() as int) == cov_r(s2, 0, s2.len() as int),
        icov_r(s1, 0, s1.len() as int) == icov_r(s2, 0, s2.len() as int),
        entries_ok(s1, 0, s1.len() as int) ==> entries_ok(s2, 0, s2.len() as int),
        live_ok(s1, 0, s1.len() as int) ==> live_ok(s2, 0, s2.len() as int),
        forall|f: bool|
            live_family(s1, 0, s1.len() as int, f) ==> #[trigger] live_family(
                s2,
                0,
                s2.len() as int,
                f,
            ),
        forall|base: Set<(bool, int)>|
            no_spurious(s1, 0, s1.len() as int, base) ==> #[trigger] no_spurious(
                s2,
                0,
                s2.len() as int,
                base,
            ),
        live_disjoint(s1, 0, s1.len() as int) ==> live_disjoint(s2, 0, s2.len() as int),
        live_disjoint(s1, 0, s1.len() as int) && live_merged(s1, 0, s1.len() as int) ==> live_merged(
            s2,
            0,
            s2.len() as int,
        ),
        forall|pk: int|
            live_disjoint(s1, 0, s1.len() as int) && #[trigger] level_merged(
                s1,
                0,
                s1.len() as int,
                pk,
            ) ==> level_merged(s2, 0, s2.len() as int, pk),
        forall|pk: int|
            #[trigger] level_bound(s1, 0, s1.len() as int, pk) ==> level_bound(
                s2,
                0,
                s2.len() as int,
                pk,
            ),
{
    broadcast use group_to_multiset_ensures;

    assert forall|e: RangeInterest<R>| s1.contains(e) implies s2.contains(e) by {
        assert(s1.to_multiset().count(e) > 0);
    }
    assert forall|e: RangeInterest<R>| s2.contains(e) implies s1.contains(e) by {
        assert(s2.to_multiset().count(e) > 0);
    }
    assert(cov_r(s1, 0, s1.len() as int) =~= cov_r(s2, 0, s2.len() as int)) by {
        assert forall|p: (bool, int)| cov_r(s1, 0, s1.len() as int).contains(p) implies cov_r(
            s2,
            0,
            s2.len() as int,
        ).contains(p) by {
            let j = choose|j: int| 0 <= j < s1.len() && covp(#[trigger] s1[j], p);
            assert(s2.contains(s1[j]));
            let j2 = choose|j2: int| 0 <= j2 < s2.len() && s2[j2] == s1[j];
            assert(covp(s2[j2], p));
        }
        assert forall|p: (bool, int)| cov_r(s2, 0, s2.len() as int).contains(p) implies cov_r(
            s1,
            0,
            s1.len() as int,
        ).contains(p) by {
            let j = choose|j: int| 0 <= j < s2.len() && covp(#[trigger] s2[j], p);
            assert(s1.contains(s2[j]));
            let j2 = choose|j2: int| 0 <= j2 < s1.len() && s1[j2] == s2[j];
            assert(covp(s1[j2], p));
        }
    }
    assert(icov_r(s1, 0, s1.len() as int) =~= icov_r(s2, 0, s2.len() as int)) by {
        assert forall|p: (bool, int)| icov_r(s1, 0, s1.len() as int).contains(p) implies icov_r(
            s2,
            0,
            s2.len() as int,
        ).contains(p) by {
            let j = choose|j: int| 0 <= j < s1.len() && covp(#[trigger] s1[j], p) && s1[j].sel();
            assert(s2.contains(s1[j]));
            let j2 = choose|j2: int| 0 <= j2 < s2.len() && s2[j2] == s1[j];
            assert(covp(s2[j2], p) && s2[j2].sel());
        }
        assert forall|p: (bool, int)| icov_r(s2, 0, s2.len() as int).contains(p) implies icov_r(
            s1,
            0,
            s1.len() as int,
        ).contains(p) by {
            let j = choose|j: int| 0 <= j < s2.len() && covp(#[trigger] s2[j], p) && s2[j].sel();
            assert(s1.contains(s2[j]));
            let j2 = choose|j2: int| 0 <= j2 < s1.len() && s1[j2] == s2[j];
            assert(covp(s1[j2], p) && s1[j2].sel());
        }
    }
    if entries_ok(s1, 0, s1.len() as int) {
        assert forall|i: int| 0 <= i < s2.len() implies (#[trigger] s2[i]).ok() by {
            assert(s2.contains(s2[i]));
            let j = choose|j: int| 0 <= j < s1.len() && s1[j] == s2[i];
        }
    }
    if live_ok(s1, 0, s1.len() as int) {
        assert forall|i: int| 0 <= i < s2.len() && (#[trigger] s2[i]).is_normal() implies s2[i].ok()
        by {
            assert(s2.contains(s2[i]));
            let j = choose|j: int| 0 <= j < s1.len() && s1[j] == s2[i];
        }
    }
    assert forall|f: bool|
        live_family(s1, 0, s1.len() as int, f) implies #[trigger] live_family(
        s2,
        0,
        s2.len() as int,
        f,
    ) by {
        assert forall|i: int|
            0 <= i < s2.len() && (#[trigger] s2[i]).is_normal() implies s2[i].blk().v6 == f by {
            assert(s2.contains(s2[i]));
            let j = choose|j: int| 0 <= j < s1.len() && s1[j] == s2[i];
        }
    }
    assert forall|base: Set<(bool, int)>|
        no_spurious(s1, 0, s1.len() as int, base) implies #[trigger] no_spurious(
        s2,
        0,
        s2.len() as int,
        base,
    ) by {
        assert forall|i: int|
            0 <= i < s2.len() && (#[trigger] s2[i]).is_normal() && s2[i].sel() implies meets(
            s2[i].blk(),
            base,
        ) by {
            assert(s2.contains(s2[i]));
            let j = choose|j: int| 0 <= j < s1.len() && s1[j] == s2[i];
        }
    }
    if live_disjoint(s1, 0, s1.len() as int) {
        assert forall|i: int, j: int|
            0 <= i < s2.len() && 0 <= j < s2.len() && i != j && (#[trigger] s2[i]).is_normal() && (
            #[trigger] s2[j]).is_normal() implies blocks_disjoint(s2[i].blk(), s2[j].blk()) && (
        live_merged(s1, 0, s1.len() as int) ==> !sibling_mergeable(s2[i].blk(), s2[j].blk())) && (
        forall|pk: int|
            #[trigger] level_merged(s1, 0, s1.len() as int, pk) && s2[i].blk().plen == pk && s2[
            j].blk().plen == pk ==> !sibling_mergeable(s2[i].blk(), s2[j].blk())) by {
            if s2[i] == s2[j] {
                lemma_two_indices_count(s2, i, j);
                lemma_count_two_indices(s1, s2[i]);
                let (p, q): (int, int) = choose|p: int, q: int|
                    0 <= p < s1.len() && 0 <= q < s1.len() && p != q && s1[p] == s2[i] && s1[q]
                        == s2[i];
                lemma_block_size_pos_any(s2[i].blk());
                assert(false);
            } else {
                assert(s2.contains(s2[i]));
                assert(s2.contains(s2[j]));
                let p = choose|p: int| 0 <= p < s1.len() && s1[p] == s2[i];
                let q = choose|q: int| 0 <= q < s1.len() && s1[q] == s2[j];
                assert(p != q);
            }
        }
    }
    assert forall|pk: int|
        #[trigger] level_bound(s1, 0, s1.len() as int, pk) implies level_bound(
        s2,
        0,
        s2.len() as int,
        pk,
    ) by {
        assert forall|i: int|
            0 <= i < s2.len() && (#[trigger] s2[i]).is_normal() implies s2[i].blk().plen <= pk by {
            assert(s2.contains(s2[i]));
            let j = choose|j: int| 0 <= j < s1.len() && s1[j] == s2[i];
        }
    }
}

/// Block sizes are positive for any block, well formed or not.
proof fn lemma_block_size_pos_any(b: Block)
    ensures
        block_size(b) >= 1,
{
    vstd::arithmetic::power2::lemma_pow2_pos((crate::block::family_width(b.v6) - b.plen) as nat);
}

/// Swapping two positions of a region keeps the region's multiset.
proof fn lemma_swap_multiset<A>(s: Seq<A>, lo: int, hi: int, i: int, j: int)
    requires
        0 <= lo <= i <= j < hi <= s.len(),
    ensures
        s.update(i, s[j]).update(j, s[i]).subrange(lo, hi).to_multiset() == s.subrange(
            lo,
            hi,
        ).to_multiset(),
{
    broadcast use group_to_multiset_ensures;
    broadcast use vstd::multiset::group_multiset_axioms;

    let t = s.subrange(lo, hi);
    let s2 = s.update(i, s[j]).update(j, s[i]);
    let t2 = s2.subrange(lo, hi);
    if i == j {
        assert(t2 =~= t);
    } else {
        assert(t2 =~= t.update(i - lo, t[j - lo]).update(j - lo, t[i - lo]));
        let u = t.update(i - lo, t[j - lo]);
        assert(u.to_multiset() =~= t.to_multiset().remove(t[i - lo]).insert(t[j - lo]));
        assert(u[j - lo] == t[j - lo]);
        assert(t2.to_multiset() =~= u.to_multiset().remove(u[j - lo]).insert(t[i - lo]));
        assert(t2.to_multiset() =~= t.to_multiset()) by {
            let a = t[i - lo];
            let b = t[j - lo];
            let m = t.to_multiset();
            assert(m.count(a) > 0) by {
                assert(t.contains(a));
            }
            assert(m.count(b) > 0) by {
                assert(t.contains(b));
            }
            assert forall|x: A|
                m.remove(a).insert(b).remove(b).insert(a).count(x) == m.count(x) by {}
        }
    }
}

/// The coverage of a region splits at any point of it.
proof fn lemma_cov_split<R: Range>(s: Seq<RangeInterest<R>>, lo: int, mid: int, hi: int)
    requires
        lo <= mid <= hi,
    ensures
        cov_r(s, lo, hi) == cov_r(s, lo, mid).union(cov_r(s, mid, hi)),
        icov_r(s, lo, hi) == icov_r(s, lo, mid).union(icov_r(s, mid, hi)),
{
    assert(cov_r(s, lo, hi) =~= cov_r(s, lo, mid).union(cov_r(s, mid, hi))) by {
        assert forall|p: (bool, int)| cov_r(s, lo, hi).contains(p) implies cov_r(
            s,
            lo,
            mid,
        ).union(cov_r(s, mid, hi)).contains(p) by {
            let j = choose|j: int| lo <= j < hi && covp(#[trigger] s[j], p);
            if j < mid {
                assert(cov_r(s, lo, mid).contains(p));
            } else {
                assert(cov_r(s, mid, hi).contains(p));
            }
        }
    }
    assert(icov_r(s, lo, hi) =~= icov_r(s, lo, mid).union(icov_r(s, mid, hi))) by {
        assert forall|p: (bool, int)| icov_r(s, lo, hi).contains(p) implies icov_r(
            s,
            lo,
            mid,
        ).union(icov_r(s, mid, hi)).contains(p) by {
            let j = choose|j: int| lo <= j < hi && covp(#[trigger] s[j], p) && s[j].sel();
            if j < mid {
                assert(icov_r(s, lo, mid).contains(p));
            } else {
                assert(icov_r(s, mid, hi).contains(p));
            }
        }
    }
}

/// Region coverage equals the coverage of the region as a sequence of
/// its own.
proof fn lemma_cov_subrange<R: Range>(s: Seq<RangeInterest<R>>, lo: int, hi: int)
    requires
        0 <= lo <= hi <= s.len(),
    ensures
        cov_r(s, lo, hi) == cov_r(s.subrange(lo, hi), 0, hi - lo),
        icov_r(s, lo, hi) == icov_r(s.subrange(lo, hi), 0, hi - lo),
{
    let t = s.subrange(lo, hi);
    assert(cov_r(s, lo, hi) =~= cov_r(t, 0, hi - lo)) by {
        assert forall|p: (bool, int)| cov_r(s, lo, hi).contains(p) implies cov_r(
            t,
            0,
            hi - lo,
        ).contains(p) by {
            let j = choose|j: int| lo <= j < hi && covp(#[trigger] s[j], p);
            assert(covp(t[j - lo], p));
        }
        assert forall|p: (bool, int)| cov_r(t, 0, hi - lo).contains(p) implies cov_r(
            s,
            lo,
            hi,
        ).contains(p) by {
            let j = choose|j: int| 0 <= j < hi - lo && covp(#[trigger] t[j], p);
            assert(covp(s[j + lo], p));
        }
    }
    assert(icov_r(s, lo, hi) =~= icov_r(t, 0, hi - lo)) by {
        assert forall|p: (bool, int)| icov_r(s, lo, hi).contains(p) implies icov_r(
            t,
            0,
            hi - lo,
        ).contains(p) by {
            let j = choose|j: int| lo <= j < hi && covp(#[trigger] s[j], p) && s[j].sel();
            assert(covp(t[j - lo], p) && t[j - lo].sel());
        }
        assert forall|p: (bool, int)| icov_r(t, 0, hi - lo).contains(p) implies icov_r(
            s,
            lo,
            hi,
        ).contains(p) by {
            let j = choose|j: int| 0 <= j < hi - lo && covp(#[trigger] t[j], p) && t[j].sel();
            assert(covp(s[j + lo], p) && s[j + lo].sel());
        }
    }
}

/// Take an entry out of a slot, leaving a tombstone behind.
fn take_slot<R: Range>(v: &mut Vec<RangeInterest<R>>, i: usize) -> (e: RangeInterest<R>)
    requires
        i < old(v)@.len(),
    ensures
        e == old(v)@[i as int],
        final(v)@ == old(v)@.update(i as int, RangeInterest::tombstone()),
{
    let mut t: RangeInterest<R> = RangeInterest::tombstone_exec();
    core::mem::swap(&mut t, &mut v[i]);
    t
}

/// Store an entry into a slot.
pub(crate) fn set_slot<R: Range>(v: &mut Vec<RangeInterest<R>>, i: usize, e: RangeInterest<R>)
    requires
        i < old(v)@.len(),
    ensures
        final(v)@ == old(v)@.update(i as int, e),
{
    let mut t = e;
    core::mem::swap(&mut t, &mut v[i]);
}

/// Exchange two slots.
fn swap_slots<R: Range>(v: &mut Vec<RangeInterest<R>>, i: usize, j: usize)
    requires
        i < old(v)@.len(),
        j < old(v)@.len(),
    ensures
        final(v)@ == old(v)@.update(i as int, old(v)@[j as int]).update(j as int, old(v)@[i as int]),
{
    if i == j {
        proof {
            assert(old(v)@.update(i as int, old(v)@[j as int]).update(
                j as int,
                old(v)@[i as int],
            ) =~= old(v)@);
        }
        return ;
    }
    let a = take_slot(v, i);
    let b = take_slot(v, j);
    set_slot(v, j, a);
    set_slot(v, i, b);
    proof {
        assert(v@ =~= old(v)@.update(i as int, old(v)@[j as int]).update(
            j as int,
            old(v)@[i as int],
        ));
    }
}

/// The executable initial sort order.
fn entry_before_le<R: Range>(a: &RangeInterest<R>, b: &RangeInterest<R>) -> (r: bool)
    requires
        a.ok(),
        b.ok(),
    ensures
        r == before_le(*a, *b),
{
    let av6 = a.range().is_ipv6();
    let bv6 = b.range().is_ipv6();
    if av6 != bv6 {
        !av6
    } else {
        let aa = a.range().host_address();
        let ba = b.range().host_address();
        if aa != ba {
            aa < ba
        } else {
            a.range().prefix_length() <= b.range().prefix_length()
        }
    }
}

/// The executable coalescing sort order.
fn entry_during_le<R: Range>(a: &RangeInterest<R>, b: &RangeInterest<R>) -> (r: bool)
    requires
        a.ok(),
        b.ok(),
    ensures
        r == during_le(*a, *b),
{
    let ap = a.range().prefix_length();
    let bp = b.range().prefix_length();
    if ap != bp {
        ap > bp
    } else {
        a.range().host_address() <= b.range().host_address()
    }
}

/// Sort the region by the initial order: family, then address, then
/// prefix length.  An insertion sort: in place, no allocation.
fn sort_before_merging<R: Range>(v: &mut Vec<RangeInterest<R>>, lo: usize, hi: usize)
    requires
        lo <= hi <= old(v)@.len(),
        entries_ok(old(v)@, lo as int, hi as int),
    ensures
        final(v)@.len() == old(v)@.len(),
        untouched(old(v)@, final(v)@, lo as int, hi as int),
        final(v)@.subrange(lo as int, hi as int).to_multiset() == old(v)@.subrange(
            lo as int,
            hi as int,
        ).to_multiset(),
        entries_ok(final(v)@, lo as int, hi as int),
        sorted_before(final(v)@, lo as int, hi as int),
{
    let ghost s0 = old(v)@;
    let mut n = lo;
    while n < hi
        invariant
            lo <= n <= hi <= v@.len(),
            v@.len() == s0.len(),
            untouched(s0, v@, lo as int, hi as int),
            v@.subrange(lo as int, hi as int).to_multiset() == s0.subrange(
                lo as int,
                hi as int,
            ).to_multiset(),
            entries_ok(v@, lo as int, hi as int),
            sorted_before(v@, lo as int, n as int),
        decreases hi - n,
    {
        let mut j = n;
        while j > lo && !entry_before_le(&v[j - 1], &v[j])
            invariant
                lo <= j <= n < hi <= v@.len(),
                v@.len() == s0.len(),
                untouched(s0, v@, lo as int, hi as int),
                v@.subrange(lo as int, hi as int).to_multiset() == s0.subrange(
                    lo as int,
                    hi as int,
                ).to_multiset(),
                entries_ok(v@, lo as int, hi as int),
                forall|p: int, q: int|
                    lo <= p < q <= n && p != j && q != j ==> before_le(
                        #[trigger] v@[p],
                        #[trigger] v@[q],
                    ),
                forall|q: int| j < q <= n ==> before_le(v@[j as int], #[trigger] v@[q]),
            decreases j,
        {
            let ghost prev = v@;
            swap_slots(v, j - 1, j);
            proof {
                lemma_swap_multiset(prev, lo as int, hi as int, j - 1, j as int);
                assert forall|p: int, q: int|
                    lo <= p < q <= n && p != j - 1 && q != j - 1 implies before_le(
                    #[trigger] v@[p],
                    #[trigger] v@[q],
                ) by {
                    if p == j {
                        assert(v@[p] == prev[j - 1]);
                    } else if q == j {
                        assert(v@[q] == prev[j - 1]);
                        assert(before_le(prev[p], prev[j - 1]));
                    }
                }
                assert forall|q: int| j - 1 < q <= n implies before_le(
                    v@[j - 1],
                    #[trigger] v@[q],
                ) by {
                    if q == j {
                        assert(v@[j - 1] == prev[j as int] && v@[q] == prev[j - 1]);
                        assert(!before_le(prev[j - 1], prev[j as int]));
                    } else {
                        assert(v@[j - 1] == prev[j as int] && v@[q] == prev[q]);
                        assert(before_le(prev[j as int], prev[q]));
                    }
                }
            }
            j -= 1;
        }
        proof {
            assert forall|p: int, q: int| lo <= p < q <= n implies before_le(
                #[trigger] v@[p],
                #[trigger] v@[q],
            ) by {
                if q == j && p < q {
                    assert(before_le(v@[j - 1], v@[j as int]));
                    if p < j - 1 {
                        assert(before_le(v@[p], v@[j - 1]));
                    }
                }
            }
        }
        n += 1;
    }
}

/// Sort the region by the coalescing order: descending prefix length,
/// then ascending address.  An insertion sort: in place, no allocation.
fn sort_during_merging<R: Range>(v: &mut Vec<RangeInterest<R>>, lo: usize, hi: usize)
    requires
        lo <= hi <= old(v)@.len(),
        entries_ok(old(v)@, lo as int, hi as int),
    ensures
        final(v)@.len() == old(v)@.len(),
        untouched(old(v)@, final(v)@, lo as int, hi as int),
        final(v)@.subrange(lo as int, hi as int).to_multiset() == old(v)@.subrange(
            lo as int,
            hi as int,
        ).to_multiset(),
        entries_ok(final(v)@, lo as int, hi as int),
        sorted_during(final(v)@, lo as int, hi as int),
{
    let ghost s0 = old(v)@;
    let mut n = lo;
    while n < hi
        invariant
            lo <= n <= hi <= v@.len(),
            v@.len() == s0.len(),
            untouched(s0, v@, lo as int, hi as int),
            v@.subrange(lo as int, hi as int).to_multiset() == s0.subrange(
                lo as int,
                hi as int,
            ).to_multiset(),
            entries_ok(v@, lo as int, hi as int),
            sorted_during(v@, lo as int, n as int),
        decreases hi - n,
    {
        let mut j = n;
        while j > lo && !entry_during_le(&v[j - 1], &v[j])
            invariant
                lo <= j <= n < hi <= v@.len(),
                v@.len() == s0.len(),
                untouched(s0, v@, lo as int, hi as int),
                v@.subrange(lo as int, hi as int).to_multiset() == s0.subrange(
                    lo as int,
                    hi as int,
                ).to_multiset(),
                entries_ok(v@, lo as int, hi as int),
                forall|p: int, q: int|
                    lo <= p < q <= n && p != j && q != j ==> during_le(
                        #[trigger] v@[p],
                        #[trigger] v@[q],
                    ),
                forall|q: int| j < q <= n ==> during_le(v@[j as int], #[trigger] v@[q]),
            decreases j,
        {
            let ghost prev = v@;
            swap_slots(v, j - 1, j);
            proof {
                lemma_swap_multiset(prev, lo as int, hi as int, j - 1, j as int);
                assert forall|p: int, q: int|
                    lo <= p < q <= n && p != j - 1 && q != j - 1 implies during_le(
                    #[trigger] v@[p],
                    #[trigger] v@[q],
                ) by {
                    if p == j {
                        assert(v@[p] == prev[j - 1]);
                    } else if q == j {
                        assert(v@[q] == prev[j - 1]);
                        assert(during_le(prev[p], prev[j - 1]));
                    }
                }
                assert forall|q: int| j - 1 < q <= n implies during_le(
                    v@[j - 1],
                    #[trigger] v@[q],
                ) by {
                    if q == j {
                        assert(v@[j - 1] == prev[j as int] && v@[q] == prev[j - 1]);
                        assert(!during_le(prev[j - 1], prev[j as int]));
                    } else {
                        assert(v@[j - 1] == prev[j as int] && v@[q] == prev[q]);
                        assert(during_le(prev[j as int], prev[q]));
                    }
                }
            }
            j -= 1;
        }
        proof {
            assert forall|p: int, q: int| lo <= p < q <= n implies during_le(
                #[trigger] v@[p],
                #[trigger] v@[q],
            ) by {
                if q == j && p < q {
                    assert(during_le(v@[j - 1], v@[j as int]));
                    if p < j - 1 {
                        assert(during_le(v@[p], v@[j - 1]));
                    }
                }
            }
        }
        n += 1;
    }
}

/// Region properties hold of a region exactly when they hold of the
/// region taken out as a sequence of its own.
#[verifier::rlimit(100)]
proof fn lemma_region_sub<R: Range>(s: Seq<RangeInterest<R>>, lo: int, hi: int)
    requires
        0 <= lo <= hi <= s.len(),
    ensures
        entries_ok(s, lo, hi) <==> entries_ok(s.subrange(lo, hi), 0, hi - lo),
        live_ok(s, lo, hi) <==> live_ok(s.subrange(lo, hi), 0, hi - lo),
        live_disjoint(s, lo, hi) <==> live_disjoint(s.subrange(lo, hi), 0, hi - lo),
        live_merged(s, lo, hi) <==> live_merged(s.subrange(lo, hi), 0, hi - lo),
        one_family(s, lo, hi) <==> one_family(s.subrange(lo, hi), 0, hi - lo),
        sorted_during(s, lo, hi) <==> sorted_during(s.subrange(lo, hi), 0, hi - lo),
        sorted_before(s, lo, hi) <==> sorted_before(s.subrange(lo, hi), 0, hi - lo),
        forall|f: bool|
            #[trigger] live_family(s, lo, hi, f) <==> live_family(
                s.subrange(lo, hi),
                0,
                hi - lo,
                f,
            ),
        forall|base: Set<(bool, int)>|
            #[trigger] no_spurious(s, lo, hi, base) <==> no_spurious(
                s.subrange(lo, hi),
                0,
                hi - lo,
                base,
            ),
        forall|pk: int|
            #[trigger] level_merged(s, lo, hi, pk) <==> level_merged(
                s.subrange(lo, hi),
                0,
                hi - lo,
                pk,
            ),
        forall|pk: int|
            #[trigger] level_bound(s, lo, hi, pk) <==> level_bound(
                s.subrange(lo, hi),
                0,
                hi - lo,
                pk,
            ),
{
    let t = s.subrange(lo, hi);
    assert(forall|k: int| 0 <= k < hi - lo ==> #[trigger] t[k] == s[lo + k]);
    if entries_ok(s, lo, hi) {
        assert forall|i: int| 0 <= i < hi - lo implies (#[trigger] t[i]).ok() by {
            assert(t[i] == s[lo + i]);
        }
    }
    if entries_ok(t, 0, hi - lo) {
        assert forall|i: int| lo <= i < hi implies (#[trigger] s[i]).ok() by {
            assert(t[i - lo] == s[i]);
        }
    }
    if live_ok(s, lo, hi) {
        assert forall|i: int| 0 <= i < hi - lo && (#[trigger] t[i]).is_normal() implies t[i].ok()
        by {
            assert(t[i] == s[lo + i]);
        }
    }
    if live_ok(t, 0, hi - lo) {
        assert forall|i: int| lo <= i < hi && (#[trigger] s[i]).is_normal() implies s[i].ok() by {
            assert(t[i - lo] == s[i]);
        }
    }
    if live_disjoint(s, lo, hi) {
        assert forall|i: int, j: int|
            0 <= i < hi - lo && 0 <= j < hi - lo && i != j && (#[trigger] t[i]).is_normal() && (
            #[trigger] t[j]).is_normal() implies blocks_disjoint(t[i].blk(), t[j].blk()) by {
            assert(t[i] == s[lo + i] && t[j] == s[lo + j]);
        }
    }
    if live_disjoint(t, 0, hi - lo) {
        assert forall|i: int, j: int|
            lo <= i < hi && lo <= j < hi && i != j && (#[trigger] s[i]).is_normal() && (
            #[trigger] s[j]).is_normal() implies blocks_disjoint(s[i].blk(), s[j].blk()) by {
            assert(t[i - lo] == s[i] && t[j - lo] == s[j]);
        }
    }
    if live_merged(s, lo, hi) {
        assert forall|i: int, j: int|
            0 <= i < hi - lo && 0 <= j < hi - lo && i != j && (#[trigger] t[i]).is_normal() && (
            #[trigger] t[j]).is_normal() implies blocks_disjoint(t[i].blk(), t[j].blk())
            && !sibling_mergeable(t[i].blk(), t[j].blk()) by {
            assert(t[i] == s[lo + i] && t[j] == s[lo + j]);
        }
    }
    if live_merged(t, 0, hi - lo) {
        assert forall|i: int, j: int|
            lo <= i < hi && lo <= j < hi && i != j && (#[trigger] s[i]).is_normal() && (
            #[trigger] s[j]).is_normal() implies blocks_disjoint(s[i].blk(), s[j].blk())
            && !sibling_mergeable(s[i].blk(), s[j].blk()) by {
            assert(t[i - lo] == s[i] && t[j - lo] == s[j]);
        }
    }
    if one_family(s, lo, hi) {
        assert forall|p: int, q: int|
            0 <= p < hi - lo && 0 <= q < hi - lo && (#[trigger] t[p]).is_normal() && (
            #[trigger] t[q]).is_normal() implies t[p].blk().v6 == t[q].blk().v6 by {
            assert(t[p] == s[lo + p] && t[q] == s[lo + q]);
        }
    }
    if one_family(t, 0, hi - lo) {
        assert forall|p: int, q: int|
            lo <= p < hi && lo <= q < hi && (#[trigger] s[p]).is_normal() && (
            #[trigger] s[q]).is_normal() implies s[p].blk().v6 == s[q].blk().v6 by {
            assert(t[p - lo] == s[p] && t[q - lo] == s[q]);
        }
    }
    if sorted_during(s, lo, hi) {
        assert forall|i: int, j: int| 0 <= i < j < hi - lo implies during_le(
            #[trigger] t[i],
            #[trigger] t[j],
        ) by {
            assert(t[i] == s[lo + i] && t[j] == s[lo + j]);
        }
    }
    if sorted_during(t, 0, hi - lo) {
        assert forall|i: int, j: int| lo <= i < j < hi implies during_le(
            #[trigger] s[i],
            #[trigger] s[j],
        ) by {
            assert(t[i - lo] == s[i] && t[j - lo] == s[j]);
        }
    }
    if sorted_before(s, lo, hi) {
        assert forall|i: int, j: int| 0 <= i < j < hi - lo implies before_le(
            #[trigger] t[i],
            #[trigger] t[j],
        ) by {
            assert(t[i] == s[lo + i] && t[j] == s[lo + j]);
        }
    }
    if sorted_before(t, 0, hi - lo) {
        assert forall|i: int, j: int| lo <= i < j < hi implies before_le(
            #[trigger] s[i],
            #[trigger] s[j],
        ) by {
            assert(t[i - lo] == s[i] && t[j - lo] == s[j]);
        }
    }
    assert forall|f: bool|
        #[trigger] live_family(s, lo, hi, f) <==> live_family(t, 0, hi - lo, f) by {
        if live_family(s, lo, hi, f) {
            assert forall|i: int|
                0 <= i < hi - lo && (#[trigger] t[i]).is_normal() implies t[i].blk().v6 == f by {
                assert(t[i] == s[lo + i]);
            }
        }
        if live_family(t, 0, hi - lo, f) {
            assert forall|i: int|
                lo <= i < hi && (#[trigger] s[i]).is_normal() implies s[i].blk().v6 == f by {
                assert(t[i - lo] == s[i]);
            }
        }
    }
    assert forall|pk: int|
        #[trigger] level_merged(s, lo, hi, pk) <==> level_merged(t, 0, hi - lo, pk) by {
        if level_merged(s, lo, hi, pk) {
            assert forall|i: int, j: int|
                0 <= i < hi - lo && 0 <= j < hi - lo && i != j && (#[trigger] t[i]).is_normal()
                    && (#[trigger] t[j]).is_normal() && t[i].blk().plen == pk && t[j].blk().plen
                    == pk implies !sibling_mergeable(t[i].blk(), t[j].blk()) by {
                assert(t[i] == s[lo + i] && t[j] == s[lo + j]);
            }
        }
        if level_merged(t, 0, hi - lo, pk) {
            assert forall|i: int, j: int|
                lo <= i < hi && lo <= j < hi && i != j && (#[trigger] s[i]).is_normal() && (
                #[trigger] s[j]).is_normal() && s[i].blk().plen == pk && s[j].blk().plen == pk
                implies !sibling_mergeable(s[i].blk(), s[j].blk()) by {
                assert(t[i - lo] == s[i] && t[j - lo] == s[j]);
            }
        }
    }
    assert forall|pk: int|
        #[trigger] level_bound(s, lo, hi, pk) <==> level_bound(t, 0, hi - lo, pk) by {
        if level_bound(s, lo, hi, pk) {
            assert forall|i: int|
                0 <= i < hi - lo && (#[trigger] t[i]).is_normal() implies t[i].blk().plen <= pk
            by {
                assert(t[i] == s[lo + i]);
            }
        }
        if level_bound(t, 0, hi - lo, pk) {
            assert forall|i: int|
                lo <= i < hi && (#[trigger] s[i]).is_normal() implies s[i].blk().plen <= pk by {
                assert(t[i - lo] == s[i]);
            }
        }
    }
    assert forall|base: Set<(bool, int)>|
        #[trigger] no_spurious(s, lo, hi, base) <==> no_spurious(t, 0, hi - lo, base) by {
        if no_spurious(s, lo, hi, base) {
            assert forall|i: int|
                0 <= i < hi - lo && (#[trigger] t[i]).is_normal() && t[i].sel() implies meets(
                t[i].blk(),
                base,
            ) by {
                assert(t[i] == s[lo + i]);
            }
        }
        if no_spurious(t, 0, hi - lo, base) {
            assert forall|i: int|
                lo <= i < hi && (#[trigger] s[i]).is_normal() && s[i].sel() implies meets(
                s[i].blk(),
                base,
            ) by {
                assert(t[i - lo] == s[i]);
            }
        }
    }
}

/// A region of tombstones covers nothing.
proof fn lemma_cov_dummy<R: Range>(s: Seq<RangeInterest<R>>, lo: int, hi: int)
    requires
        forall|j: int| lo <= j < hi ==> !(#[trigger] s[j]).is_normal(),
    ensures
        cov_r(s, lo, hi) == Set::<(bool, int)>::empty(),
        icov_r(s, lo, hi) == Set::<(bool, int)>::empty(),
{
    assert(cov_r(s, lo, hi) =~= Set::<(bool, int)>::empty());
    assert(icov_r(s, lo, hi) =~= Set::<(bool, int)>::empty());
}

/// Coverage facts about a step that works inside `[a, b)` extend to any
/// enclosing region.
proof fn lemma_step_props<R: Range>(
    pre: Seq<RangeInterest<R>>,
    post: Seq<RangeInterest<R>>,
    lo: int,
    hi: int,
    a: int,
    b: int,
)
    requires
        0 <= lo <= a <= b <= hi <= pre.len(),
        untouched(pre, post, a, b),
        cov_r(post, a, b) == cov_r(pre, a, b),
        icov_r(pre, a, b).subset_of(icov_r(post, a, b)),
        forall|base: Set<(bool, int)>|
            #[trigger] no_spurious(pre, a, b, base) ==> no_spurious(post, a, b, base),
    ensures
        cov_r(post, lo, hi) == cov_r(pre, lo, hi),
        icov_r(pre, lo, hi).subset_of(icov_r(post, lo, hi)),
        forall|base: Set<(bool, int)>|
            #[trigger] no_spurious(pre, lo, hi, base) ==> no_spurious(post, lo, hi, base),
{
    lemma_cov_split(pre, lo, a, hi);
    lemma_cov_split(pre, a, b, hi);
    lemma_cov_split(post, lo, a, hi);
    lemma_cov_split(post, a, b, hi);
    assert(cov_r(post, lo, a) =~= cov_r(pre, lo, a)) by {
        assert forall|p: (bool, int)| cov_r(post, lo, a).contains(p) implies cov_r(
            pre,
            lo,
            a,
        ).contains(p) by {
            let j = choose|j: int| lo <= j < a && covp(#[trigger] post[j], p);
            assert(covp(pre[j], p));
        }
        assert forall|p: (bool, int)| cov_r(pre, lo, a).contains(p) implies cov_r(
            post,
            lo,
            a,
        ).contains(p) by {
            let j = choose|j: int| lo <= j < a && covp(#[trigger] pre[j], p);
            assert(covp(post[j], p));
        }
    }
    assert(cov_r(post, b, hi) =~= cov_r(pre, b, hi)) by {
        assert forall|p: (bool, int)| cov_r(post, b, hi).contains(p) implies cov_r(
            pre,
            b,
            hi,
        ).contains(p) by {
            let j = choose|j: int| b <= j < hi && covp(#[trigger] post[j], p);
            assert(covp(pre[j], p));
        }
        assert forall|p: (bool, int)| cov_r(pre, b, hi).contains(p) implies cov_r(
            post,
            b,
            hi,
        ).contains(p) by {
            let j = choose|j: int| b <= j < hi && covp(#[trigger] pre[j], p);
            assert(covp(post[j], p));
        }
    }
    assert(icov_r(post, lo, a) =~= icov_r(pre, lo, a)) by {
        assert forall|p: (bool, int)| icov_r(post, lo, a).contains(p) implies icov_r(
            pre,
            lo,
            a,
        ).contains(p) by {
            let j = choose|j: int| lo <= j < a && covp(#[trigger] post[j], p) && post[j].sel();
            assert(covp(pre[j], p) && pre[j].sel());
        }
        assert forall|p: (bool, int)| icov_r(pre, lo, a).contains(p) implies icov_r(
            post,
            lo,
            a,
        ).contains(p) by {
            let j = choose|j: int| lo <= j < a && covp(#[trigger] pre[j], p) && pre[j].sel();
            assert(covp(post[j], p) && post[j].sel());
        }
    }
    assert(icov_r(post, b, hi) =~= icov_r(pre, b, hi)) by {
        assert forall|p: (bool, int)| icov_r(post, b, hi).contains(p) implies icov_r(
            pre,
            b,
            hi,
        ).contains(p) by {
            let j = choose|j: int| b <= j < hi && covp(#[trigger] post[j], p) && post[j].sel();
            assert(covp(pre[j], p) && pre[j].sel());
        }
        assert forall|p: (bool, int)| icov_r(pre, b, hi).contains(p) implies icov_r(
            post,
            b,
            hi,
        ).contains(p) by {
            let j = choose|j: int| b <= j < hi && covp(#[trigger] pre[j], p) && pre[j].sel();
            assert(covp(post[j], p) && post[j].sel());
        }
    }
    assert(cov_r(post, lo, hi) =~= cov_r(pre, lo, hi));
    assert(icov_r(pre, lo, hi).subset_of(icov_r(post, lo, hi)));
    assert forall|base: Set<(bool, int)>|
        #[trigger] no_spurious(pre, lo, hi, base) implies no_spurious(post, lo, hi, base) by {
        assert(no_spurious(pre, a, b, base));
        assert(no_spurious(post, a, b, base));
        assert forall|i: int|
            lo <= i < hi && (#[trigger] post[i]).is_normal() && post[i].sel() implies meets(
            post[i].blk(),
            base,
        ) by {
            if i < a || i >= b {
                assert(post[i] == pre[i]);
            }
        }
    }
}

/// A permutation of a region keeps every value-level fact of the region:
/// coverage, selected coverage, validity, family, prefix-length facts,
/// disjointness and selection soundness.
proof fn lemma_perm_region<R: Range>(
    pre: Seq<RangeInterest<R>>,
    post: Seq<RangeInterest<R>>,
    a: int,
    b: int,
)
    requires
        0 <= a <= b <= pre.len(),
        untouched(pre, post, a, b),
        pre.subrange(a, b).to_multiset() == post.subrange(a, b).to_multiset(),
    ensures
        cov_r(post, a, b) == cov_r(pre, a, b),
        icov_r(post, a, b) == icov_r(pre, a, b),
        live_ok(pre, a, b) ==> live_ok(post, a, b),
        entries_ok(pre, a, b) ==> entries_ok(post, a, b),
        forall|f: bool|
            #[trigger] live_family(pre, a, b, f) ==> live_family(post, a, b, f),
        forall|base: Set<(bool, int)>|
            #[trigger] no_spurious(pre, a, b, base) ==> no_spurious(post, a, b, base),
        live_disjoint(pre, a, b) ==> live_disjoint(post, a, b),
        live_disjoint(pre, a, b) && live_merged(pre, a, b) ==> live_merged(post, a, b),
        forall|pk: int|
            live_disjoint(pre, a, b) && #[trigger] level_merged(pre, a, b, pk) ==> level_merged(
                post,
                a,
                b,
                pk,
            ),
        forall|pk: int|
            #[trigger] level_bound(pre, a, b, pk) ==> level_bound(post, a, b, pk),
{
    let t1 = pre.subrange(a, b);
    let t2 = post.subrange(a, b);
    lemma_region_sub(pre, a, b);
    lemma_region_sub(post, a, b);
    lemma_cov_subrange(pre, a, b);
    lemma_cov_subrange(post, a, b);
    lemma_perm_facts(t1, t2);
}

/// A step inside `[a, b)` that keeps its valid entries pairwise
/// disjoint and keeps the region's coverage cannot break disjointness
/// against the untouched entries around it: anything a new entry shares
/// with an outside entry, some old entry of the region already shared.
proof fn lemma_cross_disjoint<R: Range>(
    pre: Seq<RangeInterest<R>>,
    post: Seq<RangeInterest<R>>,
    lo: int,
    hi: int,
    a: int,
    b: int,
)
    requires
        0 <= lo <= a <= b <= hi <= pre.len(),
        untouched(pre, post, a, b),
        live_disjoint(pre, lo, hi),
        live_disjoint(post, a, b),
        cov_r(post, a, b) == cov_r(pre, a, b),
    ensures
        live_disjoint(post, lo, hi),
{
    assert forall|i: int, j: int|
        lo <= i < hi && lo <= j < hi && i != j && (#[trigger] post[i]).is_normal() && (
        #[trigger] post[j]).is_normal() implies blocks_disjoint(post[i].blk(), post[j].blk()) by {
        let i_in = a <= i < b;
        let j_in = a <= j < b;
        if i_in && j_in {
        } else if !i_in && !j_in {
            assert(post[i] == pre[i] && post[j] == pre[j]);
        } else {
            let (o, c): (int, int) = if i_in {
                (j, i)
            } else {
                (i, j)
            };
            assert(post[o] == pre[o]);
            let ob = pre[o].blk();
            let cb = post[c].blk();
            if !blocks_disjoint(ob, cb) {
                lemma_disjoint_points(ob, cb);
                let x: int = if ob.addr >= cb.addr {
                    ob.addr
                } else {
                    cb.addr
                };
                assert(covers(cb, x) && covers(ob, x) && ob.v6 == cb.v6);
                assert(covp(post[c], (cb.v6, x)));
                assert(cov_r(post, a, b).contains((cb.v6, x)));
                assert(cov_r(pre, a, b).contains((cb.v6, x)));
                let w = choose|w: int| a <= w < b && covp(#[trigger] pre[w], (cb.v6, x));
                assert(w != o);
                assert(blocks_disjoint(pre[o].blk(), pre[w].blk()));
                lemma_disjoint_points(pre[o].blk(), pre[w].blk());
                assert(false);
            }
        }
    }
}

/// A step inside `[a, b)` that keeps the families of its valid entries
/// keeps the whole enclosing region of one family.
proof fn lemma_cross_family<R: Range>(
    pre: Seq<RangeInterest<R>>,
    post: Seq<RangeInterest<R>>,
    lo: int,
    hi: int,
    a: int,
    b: int,
)
    requires
        0 <= lo <= a <= b <= hi <= pre.len(),
        untouched(pre, post, a, b),
        one_family(pre, lo, hi),
        a < b ==> pre[a].is_normal(),
        forall|f: bool|
            #[trigger] live_family(pre, a, b, f) ==> live_family(post, a, b, f),
    ensures
        one_family(post, lo, hi),
        forall|f: bool|
            #[trigger] live_family(pre, lo, hi, f) ==> live_family(post, lo, hi, f),
{
    if a < b {
        let f0 = pre[a].blk().v6;
        assert(live_family(pre, a, b, f0));
        assert(live_family(post, a, b, f0));
        assert forall|p: int, q: int|
            lo <= p < hi && lo <= q < hi && (#[trigger] post[p]).is_normal() && (
            #[trigger] post[q]).is_normal() implies post[p].blk().v6 == post[q].blk().v6 by {
            assert(if a <= p < b {
                post[p].blk().v6 == f0
            } else {
                post[p] == pre[p]
            });
            assert(if a <= q < b {
                post[q].blk().v6 == f0
            } else {
                post[q] == pre[q]
            });
        }
    } else {
        assert forall|p: int, q: int|
            lo <= p < hi && lo <= q < hi && (#[trigger] post[p]).is_normal() && (
            #[trigger] post[q]).is_normal() implies post[p].blk().v6 == post[q].blk().v6 by {
            assert(post[p] == pre[p] && post[q] == pre[q]);
        }
    }
    assert forall|f: bool|
        live_family(pre, lo, hi, f) implies #[trigger] live_family(post, lo, hi, f) by {
        assert(live_family(pre, a, b, f));
        assert(live_family(post, a, b, f));
        assert forall|j: int|
            lo <= j < hi && (#[trigger] post[j]).is_normal() implies post[j].blk().v6 == f by {
            if !(a <= j < b) {
                assert(post[j] == pre[j]);
            }
        }
    }
}

/// Permuting a region keeps the whole enclosing region of one family:
/// every valid entry after the step equals some valid entry before it.
proof fn lemma_cross_family_perm<R: Range>(
    pre: Seq<RangeInterest<R>>,
    post: Seq<RangeInterest<R>>,
    lo: int,
    hi: int,
    a: int,
    b: int,
)
    requires
        0 <= lo <= a <= b <= hi <= pre.len(),
        untouched(pre, post, a, b),
        pre.subrange(a, b).to_multiset() == post.subrange(a, b).to_multiset(),
        one_family(pre, lo, hi),
    ensures
        one_family(post, lo, hi),
        forall|f: bool|
            #[trigger] live_family(pre, lo, hi, f) ==> live_family(post, lo, hi, f),
{
    broadcast use group_to_multiset_ensures;

    let t1 = pre.subrange(a, b);
    let t2 = post.subrange(a, b);
    assert forall|j: int|
        a <= j < b && (#[trigger] post[j]).is_normal() implies exists|i: int|
        a <= i < b && (#[trigger] pre[i]).is_normal() && pre[i].blk().v6 == post[j].blk().v6 by {
        assert(t2[j - a] == post[j]);
        assert(t2.contains(post[j]));
        assert(t2.to_multiset().count(post[j]) > 0);
        assert(t1.to_multiset().count(post[j]) > 0);
        assert(t1.contains(post[j]));
        let w = choose|w: int| 0 <= w < t1.len() && t1[w] == post[j];
        assert(pre[a + w] == post[j]);
        assert(a <= a + w < b && (#[trigger] pre[a + w]).is_normal() && pre[a + w].blk().v6
            == post[j].blk().v6);
    }
    assert forall|p: int, q: int|
        lo <= p < hi && lo <= q < hi && (#[trigger] post[p]).is_normal() && (
        #[trigger] post[q]).is_normal() implies post[p].blk().v6 == post[q].blk().v6 by {
        let wp: int = if a <= p < b {
            choose|i: int|
                a <= i < b && (#[trigger] pre[i]).is_normal() && pre[i].blk().v6 == post[
                    p].blk().v6
        } else {
            p
        };
        let wq: int = if a <= q < b {
            choose|i: int|
                a <= i < b && (#[trigger] pre[i]).is_normal() && pre[i].blk().v6 == post[
                    q].blk().v6
        } else {
            q
        };
        assert(pre[wp].is_normal() && pre[wp].blk().v6 == post[p].blk().v6);
        assert(pre[wq].is_normal() && pre[wq].blk().v6 == post[q].blk().v6);
    }
    assert forall|f: bool|
        live_family(pre, lo, hi, f) implies #[trigger] live_family(post, lo, hi, f) by {
        assert forall|j: int|
            lo <= j < hi && (#[trigger] post[j]).is_normal() implies post[j].blk().v6 == f by {
            if a <= j < b {
                let i = choose|i: int|
                    a <= i < b && (#[trigger] pre[i]).is_normal() && pre[i].blk().v6 == post[
                        j].blk().v6;
                assert(pre[i].blk().v6 == f);
            } else {
                assert(post[j] == pre[j]);
            }
        }
    }
}

/// A step inside `[a, b)` that permutes its region permutes any
/// enclosing region.
proof fn lemma_untouched_multiset<A>(
    pre: Seq<A>,
    post: Seq<A>,
    lo: int,
    hi: int,
    a: int,
    b: int,
)
    requires
        0 <= lo <= a <= b <= hi <= pre.len(),
        pre.len() == post.len(),
        forall|i: int| lo <= i < hi && !(a <= i < b) ==> post[i] == #[trigger] pre[i],
        pre.subrange(a, b).to_multiset() == post.subrange(a, b).to_multiset(),
    ensures
        post.subrange(lo, hi).to_multiset() == pre.subrange(lo, hi).to_multiset(),
{
    let p1 = pre.subrange(lo, a);
    let p2 = pre.subrange(a, b);
    let p3 = pre.subrange(b, hi);
    let q1 = post.subrange(lo, a);
    let q2 = post.subrange(a, b);
    let q3 = post.subrange(b, hi);
    assert(q1 =~= p1);
    assert(q3 =~= p3);
    assert(pre.subrange(lo, hi) =~= (p1 + p2) + p3);
    assert(post.subrange(lo, hi) =~= (p1 + q2) + p3);
    vstd::seq_lib::lemma_multiset_commutative(p1 + p2, p3);
    vstd::seq_lib::lemma_multiset_commutative(p1, p2);
    vstd::seq_lib::lemma_multiset_commutative(p1 + q2, p3);
    vstd::seq_lib::lemma_multiset_commutative(p1, q2);
}

/// Compact the region: move its valid entries to its front, in order,
/// and return how many there are.  Tombstones end up behind them.
fn compact<R: Range>(v: &mut Vec<RangeInterest<R>>, lo: usize, hi: usize) -> (k: usize)
    requires
        lo <= hi <= old(v)@.len(),
    ensures
        final(v)@.len() == old(v)@.len(),
        untouched(old(v)@, final(v)@, lo as int, hi as int),
        lo + k <= hi,
        final(v)@.subrange(lo as int, (lo + k) as int) == lives(
            old(v)@.subrange(lo as int, hi as int),
        ),
        forall|i: int| lo + k <= i < hi ==> !(#[trigger] final(v)@[i]).is_normal(),
        final(v)@.subrange(lo as int, hi as int).to_multiset() == old(v)@.subrange(
            lo as int,
            hi as int,
        ).to_multiset(),
        (lo + k == hi) <==> (forall|i: int|
            lo <= i < hi ==> (#[trigger] old(v)@[i]).is_normal()),
        (forall|i: int| lo <= i < hi ==> (#[trigger] old(v)@[i]).is_normal()) ==> final(v)@
            == old(v)@,
{
    broadcast use vstd::seq_lib::group_filter_ensures;

    let ghost s0 = old(v)@;
    let mut k: usize = 0;
    let mut j = lo;
    proof {
        assert(s0.subrange(lo as int, lo as int) =~= Seq::<RangeInterest<R>>::empty());
        assert(v@.subrange(lo as int, lo as int) =~= Seq::<RangeInterest<R>>::empty());
        assert(lives(s0.subrange(lo as int, lo as int)) =~= Seq::<RangeInterest<R>>::empty())
            by {
            reveal(Seq::filter);
        }
    }
    while j < hi
        invariant
            lo <= lo + k <= j <= hi <= v@.len(),
            v@.len() == s0.len(),
            untouched(s0, v@, lo as int, hi as int),
            v@.subrange(lo as int, (lo + k) as int) == lives(s0.subrange(lo as int, j as int)),
            forall|i: int| lo + k <= i < j ==> !(#[trigger] v@[i]).is_normal(),
            forall|i: int| j <= i < hi ==> #[trigger] v@[i] == s0[i],
            v@.subrange(lo as int, hi as int).to_multiset() == s0.subrange(
                lo as int,
                hi as int,
            ).to_multiset(),
            (lo + k == j) <==> (forall|i: int|
                lo <= i < j ==> (#[trigger] s0[i]).is_normal()),
            (forall|i: int| lo <= i < j ==> (#[trigger] s0[i]).is_normal()) ==> v@ == s0,
        decreases hi - j,
    {
        let ghost prev = v@;
        proof {
            assert(s0.subrange(lo as int, (j + 1) as int) =~= s0.subrange(
                lo as int,
                j as int,
            ).push(s0[j as int]));
            s0.subrange(lo as int, j as int).lemma_filter_push(
                s0[j as int],
                |e: RangeInterest<R>| e.is_normal(),
            );
        }
        if !v[j].is_dummy() {
            swap_slots(v, lo + k, j);
            proof {
                lemma_swap_multiset(prev, lo as int, hi as int, (lo + k) as int, j as int);
                assert(v@.subrange(lo as int, (lo + k + 1) as int) =~= prev.subrange(
                    lo as int,
                    (lo + k) as int,
                ).push(prev[j as int]));
            }
            k += 1;
        } else {
            proof {
                assert(v@.subrange(lo as int, (lo + k) as int) == lives(
                    s0.subrange(lo as int, (j + 1) as int),
                ));
            }
        }
        j += 1;
    }
    k
}

/// The effect of one overlap merge on the region's coverage: absorbing
/// a contained entry into its container changes nothing of the covered
/// addresses, loses no selected address, and selects nothing that does
/// not share an address with a previously selected entry.
proof fn lemma_overlap_step<R: Range>(
    s: Seq<RangeInterest<R>>,
    s2: Seq<RangeInterest<R>>,
    lo: int,
    hi: int,
    i: int,
    surv: RangeInterest<R>,
)
    requires
        0 <= lo <= i,
        i + 1 < hi,
        hi <= s.len(),
        s2 == s.update(i, RangeInterest::tombstone()).update(i + 1, surv),
        s[i].is_normal(),
        s[i + 1].is_normal(),
        surv.is_normal(),
        surv.blk() == s[i].blk(),
        surv.sel() == (s[i].sel() || s[i + 1].sel()),
        block_contains(s[i].blk(), s[i + 1].blk()),
    ensures
        cov_r(s2, lo, hi) == cov_r(s, lo, hi),
        icov_r(s, lo, hi).subset_of(icov_r(s2, lo, hi)),
        forall|base: Set<(bool, int)>|
            #[trigger] no_spurious(s, lo, hi, base) ==> no_spurious(s2, lo, hi, base),
{
    crate::block::lemma_contains_covered(s[i].blk(), s[i + 1].blk());
    RangeInterest::<R>::tombstone_not_normal();
    assert(s2[i] == RangeInterest::<R>::tombstone());
    assert(cov_r(s2, lo, hi) =~= cov_r(s, lo, hi)) by {
        assert forall|p: (bool, int)| cov_r(s, lo, hi).contains(p) implies cov_r(
            s2,
            lo,
            hi,
        ).contains(p) by {
            let j = choose|j: int| lo <= j < hi && covp(#[trigger] s[j], p);
            if j == i || j == i + 1 {
                assert(covp(s2[i + 1], p));
            } else {
                assert(covp(s2[j], p));
            }
        }
        assert forall|p: (bool, int)| cov_r(s2, lo, hi).contains(p) implies cov_r(
            s,
            lo,
            hi,
        ).contains(p) by {
            let j = choose|j: int| lo <= j < hi && covp(#[trigger] s2[j], p);
            if j == i + 1 {
                assert(covp(s[i], p));
            } else {
                assert(j != i);
                assert(s2[j] == s[j]);
                assert(covp(s[j], p));
            }
        }
    }
    assert forall|p: (bool, int)| icov_r(s, lo, hi).contains(p) implies icov_r(
        s2,
        lo,
        hi,
    ).contains(p) by {
        let j = choose|j: int| lo <= j < hi && covp(#[trigger] s[j], p) && s[j].sel();
        if j == i || j == i + 1 {
            assert(covp(s2[i + 1], p) && s2[i + 1].sel());
        } else {
            assert(covp(s2[j], p) && s2[j].sel());
        }
    }
    assert forall|base: Set<(bool, int)>|
        #[trigger] no_spurious(s, lo, hi, base) implies no_spurious(s2, lo, hi, base) by {
        assert forall|j: int|
            lo <= j < hi && (#[trigger] s2[j]).is_normal() && s2[j].sel() implies meets(
            s2[j].blk(),
            base,
        ) by {
            if j == i + 1 {
                if s[i].sel() {
                    assert(meets(s[i].blk(), base));
                } else {
                    assert(s[i + 1].sel());
                    assert(meets(s[i + 1].blk(), base));
                    let x = choose|x: int|
                        covers(s[i + 1].blk(), x) && #[trigger] base.contains(
                            (s[i + 1].blk().v6, x),
                        );
                    assert(covers(s[i].blk(), x));
                    assert(base.contains((s[i].blk().v6, x)));
                }
            } else {
                assert(j != i);
                assert(s2[j] == s[j]);
            }
        }
    }
}

/// Try to combine two sibling ranges into their parent.  The first must
/// sort before the second: same family, same prefix length, smaller
/// address.  The result exists exactly when the two are the low and
/// high half of one parent block; it carries the or of the two flags.
fn try_merge_adjacent<R: Range>(
    range1: &RangeInterest<R>,
    range2: &RangeInterest<R>,
) -> (r: Option<RangeInterest<R>>)
    requires
        range1.ok(),
        range2.ok(),
        range1.blk().v6 == range2.blk().v6,
        range1.blk().plen == range2.blk().plen,
        range1.blk().addr < range2.blk().addr,
    ensures
        match r {
            Some(n) => sibling_mergeable(range1.blk(), range2.blk()) && n.ok() && n.blk()
                == parent_block(range1.blk()) && n.sel() == (range1.sel() || range2.sel()),
            None => !sibling_mergeable(range1.blk(), range2.blk()),
        },
{
    proof {
        range1.rng().lemma_inv();
    }
    let bigger_range = if let Some(bigger_range) = range1.range().embiggen() {
        bigger_range
    } else {
        return None;
    };
    proof {
        lemma_parent_block(range1.blk());
        bigger_range.lemma_inv();
    }
    if bigger_range.contains(range2.range()) {
        Some(
            RangeInterest::new(bigger_range, range1.is_selected() || range2.is_selected()),
        )
    } else {
        None
    }
}

/// Eliminate overlaps in a run of one family sorted by ascending
/// address and then ascending prefix length: scan adjacent pairs and
/// absorb a contained entry into its container, tombstoning the earlier
/// slot and keeping the survivor in the later one so the scan can keep
/// comparing it forward.  Afterwards the valid entries of the run are
/// pairwise disjoint, cover exactly what the run covered, and an
/// already-overlap-free run is left untouched.
fn remove_overlapping_ranges_in_place<R: Range>(v: &mut Vec<RangeInterest<R>>, lo: usize, hi: usize)
    requires
        lo <= hi <= old(v)@.len(),
        entries_ok(old(v)@, lo as int, hi as int),
        one_family(old(v)@, lo as int, hi as int),
        sorted_before(old(v)@, lo as int, hi as int),
    ensures
        final(v)@.len() == old(v)@.len(),
        untouched(old(v)@, final(v)@, lo as int, hi as int),
        live_ok(final(v)@, lo as int, hi as int),
        one_family(final(v)@, lo as int, hi as int),
        forall|f: bool|
            #[trigger] live_family(old(v)@, lo as int, hi as int, f) ==> live_family(
                final(v)@,
                lo as int,
                hi as int,
                f,
            ),
        cov_r(final(v)@, lo as int, hi as int) == cov_r(old(v)@, lo as int, hi as int),
        icov_r(old(v)@, lo as int, hi as int).subset_of(
            icov_r(final(v)@, lo as int, hi as int),
        ),
        forall|base: Set<(bool, int)>|
            #[trigger] no_spurious(old(v)@, lo as int, hi as int, base) ==> no_spurious(
                final(v)@,
                lo as int,
                hi as int,
                base,
            ),
        live_disjoint(final(v)@, lo as int, hi as int),
        live_disjoint(old(v)@, lo as int, hi as int) ==> final(v)@ == old(v)@,
{
    let ghost s0 = old(v)@;
    if hi - lo <= 1 {
        return ;
    }
    let mut i = lo;
    while i + 1 < hi
        invariant
            lo <= i < hi <= v@.len(),
            v@.len() == s0.len(),
            untouched(s0, v@, lo as int, hi as int),
            entries_ok(s0, lo as int, hi as int),
            one_family(s0, lo as int, hi as int),
            sorted_before(s0, lo as int, hi as int),
            forall|q: int| i < q < hi ==> #[trigger] v@[q] == s0[q],
            v@[i as int].is_normal(),
            live_ok(v@, lo as int, hi as int),
            one_family(v@, lo as int, hi as int),
            forall|f: bool|
                #[trigger] live_family(s0, lo as int, hi as int, f) ==> live_family(
                    v@,
                    lo as int,
                    hi as int,
                    f,
                ),
            cov_r(v@, lo as int, hi as int) == cov_r(s0, lo as int, hi as int),
            icov_r(s0, lo as int, hi as int).subset_of(icov_r(v@, lo as int, hi as int)),
            forall|base: Set<(bool, int)>|
                #[trigger] no_spurious(s0, lo as int, hi as int, base) ==> no_spurious(
                    v@,
                    lo as int,
                    hi as int,
                    base,
                ),
            forall|p: int, q: int|
                lo <= p < q <= i && (#[trigger] v@[p]).is_normal() && (
                #[trigger] v@[q]).is_normal() ==> blocks_disjoint(v@[p].blk(), v@[q].blk()),
            forall|p: int, q: int|
                lo <= p < i && i < q < hi && (#[trigger] v@[p]).is_normal() ==> blocks_disjoint(
                    v@[p].blk(),
                    #[trigger] s0[q].blk(),
                ),
            forall|q: int|
                i < q < hi ==> addr_plen_le(v@[i as int].blk(), (#[trigger] s0[q]).blk()),
            live_disjoint(s0, lo as int, hi as int) ==> v@ == s0,
        decreases hi - i,
    {
        let c = v[i].range().contains(v[i + 1].range());
        proof {
            v@[i as int].rng().lemma_inv();
            v@[i + 1].rng().lemma_inv();
        }
        if c {
            proof {
                if live_disjoint(s0, lo as int, hi as int) {
                    lemma_disjoint_not_contains(v@[i as int].blk(), v@[i + 1].blk());
                    assert(false);
                }
            }
            let ghost prev = v@;
            let a = take_slot(v, i);
            let b = take_slot(v, i + 1);
            let sel = a.is_selected() || b.is_selected();
            let surv = RangeInterest::new(a.unwrap(), sel);
            set_slot(v, i + 1, surv);
            proof {
                RangeInterest::<R>::tombstone_not_normal();
                assert(v@ =~= prev.update(i as int, RangeInterest::tombstone()).update(
                    i + 1,
                    surv,
                ));
                lemma_overlap_step(prev, v@, lo as int, hi as int, i as int, surv);
                assert(surv.ok());
                assert forall|j: int|
                    lo <= j < hi && (#[trigger] v@[j]).is_normal() implies v@[j].ok() by {
                    if j != i + 1 {
                        assert(v@[j] == prev[j]);
                    }
                }
                assert forall|p: int, q: int|
                    lo <= p < hi && lo <= q < hi && (#[trigger] v@[p]).is_normal() && (
                    #[trigger] v@[q]).is_normal() implies v@[p].blk().v6 == v@[q].blk().v6 by {
                    let p2: int = if p == i + 1 {
                        i as int
                    } else {
                        p
                    };
                    let q2: int = if q == i + 1 {
                        i as int
                    } else {
                        q
                    };
                    assert(v@[p].blk() == prev[p2].blk() && v@[q].blk() == prev[q2].blk());
                    assert(prev[p2].is_normal() && prev[q2].is_normal());
                }
                assert forall|f: bool|
                    live_family(s0, lo as int, hi as int, f) implies #[trigger] live_family(
                    v@,
                    lo as int,
                    hi as int,
                    f,
                ) by {
                    assert(live_family(prev, lo as int, hi as int, f));
                    assert forall|j: int|
                        lo <= j < hi && (#[trigger] v@[j]).is_normal() implies v@[j].blk().v6
                        == f by {
                        if j == i + 1 {
                            assert(v@[j].blk() == prev[i as int].blk());
                            assert(prev[i as int].is_normal());
                        } else {
                            assert(v@[j] == prev[j]);
                        }
                    }
                }
            }
        } else {
            proof {
                let a = v@[i as int].blk();
                let b = v@[i + 1].blk();
                lemma_nested_or_disjoint(a, b);
                if block_contains(b, a) && !block_contains(a, b) {
                    lemma_contains_plen(b, a);
                    assert(a == b);
                    assert(false);
                }
                assert(blocks_disjoint(a, b));
                // The survivor at i cannot touch anything past i + 1
                // either: anything it contained would drag in the
                // neighbour at i + 1, which it does not contain.
                assert forall|q: int| i + 1 < q < hi implies blocks_disjoint(
                    v@[i as int].blk(),
                    (#[trigger] s0[q]).blk(),
                ) by {
                    let c = s0[q].blk();
                    lemma_covers_self(a);
                    lemma_covers_self(b);
                    lemma_covers_self(c);
                    lemma_nested_or_disjoint(a, c);
                    if block_contains(a, c) {
                        assert(covers(a, b.addr));
                        lemma_nested_or_disjoint(a, b);
                        lemma_contains_plen(b, a);
                        assert(false);
                    }
                    if block_contains(c, a) {
                        lemma_contains_plen(c, a);
                        assert(a.addr == b.addr && b.addr == c.addr);
                        assert(a == c);
                        assert(covers(a, b.addr));
                        lemma_nested_or_disjoint(a, b);
                        lemma_contains_plen(b, a);
                        assert(false);
                    }
                }
            }
        }
        i += 1;
    }
}

/// All valid entries of the region have one prefix length.
pub open spec fn equal_plen<R: Range>(s: Seq<RangeInterest<R>>, lo: int, hi: int) -> bool {
    forall|p: int, q: int|
        lo <= p < hi && lo <= q < hi ==> (#[trigger] s[p]).blk().plen == (
        #[trigger] s[q]).blk().plen
}

/// The region's addresses are strictly increasing.
pub open spec fn addr_strict<R: Range>(s: Seq<RangeInterest<R>>, lo: int, hi: int) -> bool {
    forall|p: int, q: int|
        lo <= p < q < hi ==> (#[trigger] s[p]).blk().addr < (#[trigger] s[q]).blk().addr
}

/// The effect of one adjacency merge on the region's coverage: the
/// parent covers exactly what its two halves covered, so replacing the
/// pair by the parent changes nothing of the covered addresses, loses
/// no selected address, and selects nothing that does not share an
/// address with a previously selected entry.
proof fn lemma_adjacent_step<R: Range>(
    s: Seq<RangeInterest<R>>,
    s2: Seq<RangeInterest<R>>,
    lo: int,
    hi: int,
    i: int,
    pe: RangeInterest<R>,
)
    requires
        0 <= lo <= i,
        i + 1 < hi,
        hi <= s.len(),
        s2 == s.update(i, RangeInterest::tombstone()).update(i + 1, pe),
        s[i].is_normal(),
        s[i + 1].is_normal(),
        pe.is_normal(),
        crate::block::wf_block(s[i].blk()),
        crate::block::wf_block(s[i + 1].blk()),
        sibling_mergeable(s[i].blk(), s[i + 1].blk()),
        s[i + 1].blk() != s[i].blk(),
        pe.blk() == parent_block(s[i].blk()),
        pe.sel() == (s[i].sel() || s[i + 1].sel()),
    ensures
        cov_r(s2, lo, hi) == cov_r(s, lo, hi),
        icov_r(s, lo, hi).subset_of(icov_r(s2, lo, hi)),
        forall|base: Set<(bool, int)>|
            #[trigger] no_spurious(s, lo, hi, base) ==> no_spurious(s2, lo, hi, base),
{
    let a = s[i].blk();
    let b = s[i + 1].blk();
    lemma_mergeable_is_buddy(a, b);
    lemma_parent_block(a);
    RangeInterest::<R>::tombstone_not_normal();
    assert(s2[i] == RangeInterest::<R>::tombstone());
    assert(cov_r(s2, lo, hi) =~= cov_r(s, lo, hi)) by {
        assert forall|p: (bool, int)| cov_r(s, lo, hi).contains(p) implies cov_r(
            s2,
            lo,
            hi,
        ).contains(p) by {
            let j = choose|j: int| lo <= j < hi && covp(#[trigger] s[j], p);
            if j == i || j == i + 1 {
                assert(covp(s2[i + 1], p));
            } else {
                assert(s2[j] == s[j]);
                assert(covp(s2[j], p));
            }
        }
        assert forall|p: (bool, int)| cov_r(s2, lo, hi).contains(p) implies cov_r(
            s,
            lo,
            hi,
        ).contains(p) by {
            let j = choose|j: int| lo <= j < hi && covp(#[trigger] s2[j], p);
            if j == i + 1 {
                assert(covers(parent_block(a), p.1));
                if covers(a, p.1) {
                    assert(covp(s[i], p));
                } else {
                    assert(covers(b, p.1));
                    assert(covp(s[i + 1], p));
                }
            } else {
                assert(j != i);
                assert(s2[j] == s[j]);
                assert(covp(s[j], p));
            }
        }
    }
    assert forall|p: (bool, int)| icov_r(s, lo, hi).contains(p) implies icov_r(
        s2,
        lo,
        hi,
    ).contains(p) by {
        let j = choose|j: int| lo <= j < hi && covp(#[trigger] s[j], p) && s[j].sel();
        if j == i || j == i + 1 {
            assert(covp(s2[i + 1], p) && s2[i + 1].sel());
        } else {
            assert(s2[j] == s[j]);
            assert(covp(s2[j], p) && s2[j].sel());
        }
    }
    assert forall|base: Set<(bool, int)>|
        #[trigger] no_spurious(s, lo, hi, base) implies no_spurious(s2, lo, hi, base) by {
        assert forall|j: int|
            lo <= j < hi && (#[trigger] s2[j]).is_normal() && s2[j].sel() implies meets(
            s2[j].blk(),
            base,
        ) by {
            if j == i + 1 {
                let c = if s[i].sel() {
                    a
                } else {
                    b
                };
                assert(meets(c, base));
                let x = choose|x: int|
                    covers(c, x) && #[trigger] base.contains((c.v6, x));
                assert(covers(parent_block(a), x));
                assert(base.contains((parent_block(a).v6, x)));
            } else {
                assert(j != i);
                assert(s2[j] == s[j]);
            }
        }
    }
}

/// Coalesce a run of valid entries of one family and one prefix length,
/// sorted by strictly ascending address: scan adjacent pairs, replace a
/// mergeable pair by its parent (tombstoning the first slot, storing the
/// parent in the second) and step past both, else step by one.  A single
/// pass leaves no two entries of this prefix length mergeable: a later
/// entry can only pair with the one right before it.
#[verifier::rlimit(100)]
fn merge_ranges_of_equal_length_in_place<R: Range>(
    v: &mut Vec<RangeInterest<R>>,
    lo: usize,
    hi: usize,
)
    requires
        lo <= hi <= old(v)@.len(),
        entries_ok(old(v)@, lo as int, hi as int),
        one_family(old(v)@, lo as int, hi as int),
        equal_plen(old(v)@, lo as int, hi as int),
        addr_strict(old(v)@, lo as int, hi as int),
        live_disjoint(old(v)@, lo as int, hi as int),
    ensures
        final(v)@.len() == old(v)@.len(),
        untouched(old(v)@, final(v)@, lo as int, hi as int),
        live_ok(final(v)@, lo as int, hi as int),
        one_family(final(v)@, lo as int, hi as int),
        forall|f: bool|
            #[trigger] live_family(old(v)@, lo as int, hi as int, f) ==> live_family(
                final(v)@,
                lo as int,
                hi as int,
                f,
            ),
        forall|j: int|
            lo <= j < hi && (#[trigger] final(v)@[j]).is_normal() ==> final(v)@[j] == old(
                v,
            )@[j] || final(v)@[j].blk().plen == old(v)@[lo as int].blk().plen - 1,
        cov_r(final(v)@, lo as int, hi as int) == cov_r(old(v)@, lo as int, hi as int),
        icov_r(old(v)@, lo as int, hi as int).subset_of(
            icov_r(final(v)@, lo as int, hi as int),
        ),
        forall|base: Set<(bool, int)>|
            #[trigger] no_spurious(old(v)@, lo as int, hi as int, base) ==> no_spurious(
                final(v)@,
                lo as int,
                hi as int,
                base,
            ),
        live_disjoint(final(v)@, lo as int, hi as int),
        forall|p: int, q: int|
            lo <= p < hi && lo <= q < hi && p != q && (#[trigger] final(v)@[p]).is_normal() && (
            #[trigger] final(v)@[q]).is_normal() && final(v)@[p].blk().plen == old(
                v,
            )@[lo as int].blk().plen && final(v)@[q].blk().plen == old(
                v,
            )@[lo as int].blk().plen ==> !sibling_mergeable(
                final(v)@[p].blk(),
                final(v)@[q].blk(),
            ),
        live_merged(old(v)@, lo as int, hi as int) ==> final(v)@ == old(v)@,
        (forall|j: int| lo <= j < hi ==> (#[trigger] final(v)@[j]).is_normal()) ==> final(v)@
            == old(v)@,
{
    let ghost s0 = old(v)@;
    let ghost pk: int = if lo < hi {
        s0[lo as int].blk().plen
    } else {
        0
    };
    if hi - lo <= 1 {
        return ;
    }
    let mut i = lo;
    while i < hi - 1
        invariant
            lo <= i <= hi <= v@.len(),
            v@.len() == s0.len(),
            hi - lo >= 2,
            pk == s0[lo as int].blk().plen,
            entries_ok(s0, lo as int, hi as int),
            one_family(s0, lo as int, hi as int),
            equal_plen(s0, lo as int, hi as int),
            addr_strict(s0, lo as int, hi as int),
            live_disjoint(s0, lo as int, hi as int),
            untouched(s0, v@, lo as int, hi as int),
            forall|q: int| i <= q < hi ==> #[trigger] v@[q] == s0[q],
            live_ok(v@, lo as int, hi as int),
            one_family(v@, lo as int, hi as int),
            forall|f: bool|
                #[trigger] live_family(s0, lo as int, hi as int, f) ==> live_family(
                    v@,
                    lo as int,
                    hi as int,
                    f,
                ),
            forall|j: int|
                lo <= j < hi && (#[trigger] v@[j]).is_normal() ==> v@[j] == s0[j] || v@[j
                ].blk().plen == pk - 1,
            cov_r(v@, lo as int, hi as int) == cov_r(s0, lo as int, hi as int),
            icov_r(s0, lo as int, hi as int).subset_of(icov_r(v@, lo as int, hi as int)),
            forall|base: Set<(bool, int)>|
                #[trigger] no_spurious(s0, lo as int, hi as int, base) ==> no_spurious(
                    v@,
                    lo as int,
                    hi as int,
                    base,
                ),
            live_disjoint(v@, lo as int, hi as int),
            forall|p: int, q: int|
                lo <= p < i && i <= q < hi && (#[trigger] v@[p]).is_normal() && v@[p].blk().plen
                    == pk ==> !sibling_mergeable(v@[p].blk(), (#[trigger] s0[q]).blk()),
            forall|p: int, q: int|
                lo <= p < i && lo <= q < i && p != q && (#[trigger] v@[p]).is_normal() && (
                #[trigger] v@[q]).is_normal() && v@[p].blk().plen == pk && v@[q].blk().plen == pk
                    ==> !sibling_mergeable(v@[p].blk(), v@[q].blk()),
            live_merged(s0, lo as int, hi as int) ==> v@ == s0,
            (forall|j: int| lo <= j < hi ==> (#[trigger] v@[j]).is_normal()) ==> v@ == s0,
        decreases hi - i,
    {
        let r = try_merge_adjacent(&v[i], &v[i + 1]);
        proof {
            v@[i as int].rng().lemma_inv();
            v@[i + 1].rng().lemma_inv();
        }
        if let Some(n) = r {
            proof {
                if live_merged(s0, lo as int, hi as int) {
                    assert(false);
                }
                lemma_block_size_pos_any(v@[i as int].blk());
            }
            let ghost prev = v@;
            let _ = take_slot(v, i);
            set_slot(v, i + 1, n);
            proof {
                RangeInterest::<R>::tombstone_not_normal();
                assert(v@ =~= prev.update(i as int, RangeInterest::tombstone()).update(
                    i + 1,
                    n,
                ));
                let a = prev[i as int].blk();
                let b = prev[i + 1].blk();
                assert(b != a) by {
                    lemma_disjoint_points(a, b);
                }
                lemma_adjacent_step(prev, v@, lo as int, hi as int, i as int, n);
                lemma_mergeable_is_buddy(a, b);
                lemma_parent_block(a);
                assert(n.ok());
                assert forall|j: int|
                    lo <= j < hi && (#[trigger] v@[j]).is_normal() implies v@[j].ok() by {
                    if j != i + 1 {
                        assert(v@[j] == prev[j]);
                    }
                }
                // The parent is disjoint from every other valid entry:
                // anything sharing an address with it shares one with a
                // half, and the halves were disjoint from everything.
                assert forall|p: int, q: int|
                    lo <= p < hi && lo <= q < hi && p != q && (#[trigger] v@[p]).is_normal() && (
                    #[trigger] v@[q]).is_normal() implies blocks_disjoint(
                    v@[p].blk(),
                    v@[q].blk(),
                ) by {
                    if p == i + 1 || q == i + 1 {
                        let o: int = if p == i + 1 {
                            q
                        } else {
                            p
                        };
                        assert(v@[o] == prev[o]);
                        let c = prev[o].blk();
                        if !blocks_disjoint(c, parent_block(a)) {
                            lemma_disjoint_points(c, parent_block(a));
                            let x: int = if c.addr >= parent_block(a).addr {
                                c.addr
                            } else {
                                parent_block(a).addr
                            };
                            assert(covers(c, x) && covers(parent_block(a), x));
                            lemma_disjoint_points(c, a);
                            lemma_disjoint_points(c, b);
                            assert(false);
                        }
                    } else {
                        assert(v@[p] == prev[p] && v@[q] == prev[q]);
                    }
                }
                assert forall|p: int, q: int|
                    lo <= p < hi && lo <= q < hi && (#[trigger] v@[p]).is_normal() && (
                    #[trigger] v@[q]).is_normal() implies v@[p].blk().v6 == v@[q].blk().v6 by {
                    let p2: int = if p == i + 1 {
                        i as int
                    } else {
                        p
                    };
                    let q2: int = if q == i + 1 {
                        i as int
                    } else {
                        q
                    };
                    assert(prev[p2].is_normal() && prev[q2].is_normal());
                    assert(v@[p].blk().v6 == prev[p2].blk().v6);
                    assert(v@[q].blk().v6 == prev[q2].blk().v6);
                }
                assert forall|f: bool|
                    live_family(s0, lo as int, hi as int, f) implies #[trigger] live_family(
                    v@,
                    lo as int,
                    hi as int,
                    f,
                ) by {
                    assert(live_family(prev, lo as int, hi as int, f));
                    assert forall|j: int|
                        lo <= j < hi && (#[trigger] v@[j]).is_normal() implies v@[j].blk().v6
                        == f by {
                        if j == i + 1 {
                            assert(v@[j].blk().v6 == prev[i as int].blk().v6);
                            assert(prev[i as int].is_normal());
                        } else {
                            assert(v@[j] == prev[j]);
                        }
                    }
                }
                assert(v@[i + 1].blk().plen == pk - 1);
                assert(!v@[i as int].is_normal());
            }
            i += 2;
        } else {
            proof {
                let x = v@[i as int].blk();
                let b = s0[i + 1].blk();
                assert(v@[i as int] == s0[i as int]);
                lemma_block_size_pos_any(x);
                // The next entry starts at least one block width past
                // x, so only a neighbour starting exactly there could
                // pair with x; the refusal just observed rules it out.
                assert forall|q: int| i < q < hi implies !sibling_mergeable(
                    x,
                    (#[trigger] s0[q]).blk(),
                ) by {
                    let c = s0[q].blk();
                    if sibling_mergeable(x, c) {
                        lemma_parent_block(x);
                        assert(c.addr >= x.addr + block_size(x)) by {
                            assert(blocks_disjoint(x, c));
                            assert(c.addr > x.addr);
                        }
                        assert(c.addr + block_size(c) <= x.addr + 2 * block_size(x));
                        assert(block_size(c) == block_size(x)) by {
                            assert(c.plen == x.plen);
                        }
                        assert(c.addr == x.addr + block_size(x));
                        assert(q == i + 1) by {
                            if q > i + 1 {
                                assert(b.addr < c.addr);
                                assert(b.addr > x.addr);
                                assert(blocks_disjoint(x, b));
                                assert(b.addr >= x.addr + block_size(x));
                                assert(false);
                            }
                        }
                        assert(c == b);
                        assert(false);
                    }
                }
                assert forall|p: int, q: int|
                    lo <= p < i + 1 && lo <= q < i + 1 && p != q && (
                    #[trigger] v@[p]).is_normal() && (#[trigger] v@[q]).is_normal() && v@[
                    p].blk().plen == pk && v@[q].blk().plen == pk implies !sibling_mergeable(
                    v@[p].blk(),
                    v@[q].blk(),
                ) by {
                    if q == i {
                        assert(!sibling_mergeable(v@[p].blk(), s0[i as int].blk()));
                    } else if p == i {
                        // The other entry is an untouched original at a
                        // smaller address; a parent of x starts at x.
                        assert(v@[q] == s0[q]);
                        assert(s0[q].blk().addr < x.addr);
                        if sibling_mergeable(x, v@[q].blk()) {
                            assert(parent_block(x).addr == x.addr);
                            assert(false);
                        }
                    }
                }
            }
            i += 1;
        }
    }
    proof {
        assert forall|p: int, q: int|
            lo <= p < hi && lo <= q < hi && p != q && (#[trigger] v@[p]).is_normal() && (
            #[trigger] v@[q]).is_normal() && v@[p].blk().plen == pk && v@[q].blk().plen == pk
            implies !sibling_mergeable(v@[p].blk(), v@[q].blk()) by {
            lemma_block_size_pos_any(v@[p].blk());
            if p >= i || q >= i {
                // At most one slot past the last window remains, and it
                // is an untouched original.
                let (r, w): (int, int) = if p >= i {
                    (p, q)
                } else {
                    (q, p)
                };
                assert(v@[r] == s0[r]);
                if w >= i {
                    assert(false);
                } else {
                    if r == w {
                        assert(false);
                    }
                    if !sibling_mergeable(v@[p].blk(), v@[q].blk()) {
                    } else if p == r {
                        assert(parent_block(v@[r].blk()).addr == v@[r].blk().addr);
                        assert(v@[w] == s0[w] || v@[w].blk().plen == pk - 1);
                        assert(v@[w] == s0[w]);
                        assert(s0[w].blk().addr < s0[r].blk().addr);
                        assert(block_contains(parent_block(v@[r].blk()), v@[w].blk()));
                        assert(false);
                    } else {
                        assert(!sibling_mergeable(v@[w].blk(), s0[r].blk()));
                        assert(false);
                    }
                }
            }
        }
    }
}

/// Coalesce a run of one family, level by level: take the chunk of
/// entries with the (current) largest prefix length, pair-merge it,
/// compact and re-sort the remaining run so freshly made parents
/// interleave with the not-yet-processed entries of their size, and
/// move on to the next prefix length.  Entries of a finished level are
/// final: nothing of a later level can pair with them.  Returns the end
/// of the packed valid prefix of the run.
#[verifier::rlimit(100)]
fn merge_ranges_in_place<R: Range>(v: &mut Vec<RangeInterest<R>>, lo: usize, hi0: usize) -> (hi:
    usize)
    requires
        lo <= hi0 <= old(v)@.len(),
        entries_ok(old(v)@, lo as int, hi0 as int),
        one_family(old(v)@, lo as int, hi0 as int),
        sorted_during(old(v)@, lo as int, hi0 as int),
        live_disjoint(old(v)@, lo as int, hi0 as int),
    ensures
        final(v)@.len() == old(v)@.len(),
        untouched(old(v)@, final(v)@, lo as int, hi0 as int),
        lo <= hi <= hi0,
        entries_ok(final(v)@, lo as int, hi as int),
        forall|j: int| hi <= j < hi0 ==> !(#[trigger] final(v)@[j]).is_normal(),
        one_family(final(v)@, lo as int, hi0 as int),
        forall|f: bool|
            #[trigger] live_family(old(v)@, lo as int, hi0 as int, f) ==> live_family(
                final(v)@,
                lo as int,
                hi0 as int,
                f,
            ),
        cov_r(final(v)@, lo as int, hi0 as int) == cov_r(old(v)@, lo as int, hi0 as int),
        icov_r(old(v)@, lo as int, hi0 as int).subset_of(
            icov_r(final(v)@, lo as int, hi0 as int),
        ),
        forall|base: Set<(bool, int)>|
            #[trigger] no_spurious(old(v)@, lo as int, hi0 as int, base) ==> no_spurious(
                final(v)@,
                lo as int,
                hi0 as int,
                base,
            ),
        live_merged(final(v)@, lo as int, hi0 as int),
        forall|i: int|
            lo <= i < hi ==> ((#[trigger] final(v)@[i]).sel() <==> meets(
                final(v)@[i].blk(),
                icov_r(old(v)@, lo as int, hi0 as int),
            )),
        live_merged(old(v)@, lo as int, hi0 as int) ==> hi == hi0 && final(v)@.subrange(
            lo as int,
            hi0 as int,
        ).to_multiset() == old(v)@.subrange(lo as int, hi0 as int).to_multiset(),
{
    broadcast use vstd::seq_lib::group_filter_ensures;

    let ghost s0 = old(v)@;
    let mut start = lo;
    let mut hi = hi0;
    while start < hi
        invariant
            lo <= start <= hi <= hi0 <= v@.len(),
            v@.len() == s0.len(),
            untouched(s0, v@, lo as int, hi0 as int),
            entries_ok(v@, lo as int, hi as int),
            forall|j: int| hi <= j < hi0 ==> !(#[trigger] v@[j]).is_normal(),
            sorted_during(v@, start as int, hi as int),
            one_family(v@, lo as int, hi0 as int),
            forall|f: bool|
                #[trigger] live_family(s0, lo as int, hi0 as int, f) ==> live_family(
                    v@,
                    lo as int,
                    hi0 as int,
                    f,
                ),
            forall|i: int, j: int|
                lo <= i < start && start <= j < hi ==> (#[trigger] v@[i]).blk().plen > (
                #[trigger] v@[j]).blk().plen,
            forall|i: int, j: int|
                lo <= i < start && lo <= j < start && i != j ==> !sibling_mergeable(
                    (#[trigger] v@[i]).blk(),
                    (#[trigger] v@[j]).blk(),
                ),
            live_disjoint(v@, lo as int, hi0 as int),
            cov_r(v@, lo as int, hi0 as int) == cov_r(s0, lo as int, hi0 as int),
            icov_r(s0, lo as int, hi0 as int).subset_of(icov_r(v@, lo as int, hi0 as int)),
            forall|base: Set<(bool, int)>|
                #[trigger] no_spurious(s0, lo as int, hi0 as int, base) ==> no_spurious(
                    v@,
                    lo as int,
                    hi0 as int,
                    base,
                ),
            live_merged(s0, lo as int, hi0 as int) ==> hi == hi0 && v@.subrange(
                lo as int,
                hi0 as int,
            ).to_multiset() == s0.subrange(lo as int, hi0 as int).to_multiset() && live_merged(
                v@,
                lo as int,
                hi0 as int,
            ),
        decreases hi - start,
    {
        let pk_exec: u8 = v[start].range().prefix_length();
        let ghost pk = v@[start as int].blk().plen;
        let mut ce = start + 1;
        while ce < hi && v[ce].range().prefix_length() == pk_exec
            invariant
                lo <= start < ce <= hi <= v@.len(),
                entries_ok(v@, lo as int, hi as int),
                pk == v@[start as int].blk().plen,
                pk_exec as int == pk,
                forall|t: int| start <= t < ce ==> (#[trigger] v@[t]).blk().plen == pk,
            decreases hi - ce,
        {
            ce += 1;
        }
        proof {
            assert forall|j: int| ce <= j < hi implies (#[trigger] v@[j]).blk().plen < pk by {
                assert(during_le(v@[start as int], v@[ce as int]));
                if j > ce {
                    assert(during_le(v@[ce as int], v@[j]));
                }
            }
            assert forall|p: int, q: int|
                start <= p < q < ce implies (#[trigger] v@[p]).blk().addr < (
            #[trigger] v@[q]).blk().addr by {
                assert(during_le(v@[p], v@[q]));
                if v@[p].blk().addr == v@[q].blk().addr {
                    assert(blocks_disjoint(v@[p].blk(), v@[q].blk()));
                    lemma_disjoint_points(v@[p].blk(), v@[q].blk());
                    lemma_covers_self(v@[p].blk());
                    lemma_covers_self(v@[q].blk());
                    assert(false);
                }
            }
        }
        let ghost pre1 = v@;
        merge_ranges_of_equal_length_in_place(v, start, ce);
        proof {
            lemma_step_props(pre1, v@, lo as int, hi0 as int, start as int, ce as int);
            lemma_cross_disjoint(pre1, v@, lo as int, hi0 as int, start as int, ce as int);
            lemma_cross_family(pre1, v@, lo as int, hi0 as int, start as int, ce as int);
            if live_merged(s0, lo as int, hi0 as int) {
                assert(live_merged(pre1, start as int, ce as int));
                assert(v@ == pre1);
            }
        }
        let ghost pre2 = v@;
        let k = compact(v, start, hi);
        let new_hi = start + k;
        proof {
            assert(live_ok(pre2, start as int, hi as int)) by {
                assert forall|j: int|
                    start <= j < hi && (#[trigger] pre2[j]).is_normal() implies pre2[j].ok() by {
                    if j >= ce {
                        assert(pre2[j] == pre1[j]);
                    }
                }
            }
            lemma_perm_region(pre2, v@, start as int, hi as int);
            lemma_step_props(pre2, v@, lo as int, hi0 as int, start as int, hi as int);
            lemma_cross_disjoint(pre2, v@, lo as int, hi0 as int, start as int, hi as int);
            lemma_cross_family_perm(pre2, v@, lo as int, hi0 as int, start as int, hi as int);
            assert forall|j: int|
                start <= j < new_hi implies (#[trigger] v@[j]).is_normal() by {
                let t = lives(pre2.subrange(start as int, hi as int));
                assert(v@.subrange(start as int, new_hi as int) == t);
                assert(v@[j] == t[j - start]);
            }
            assert(live_ok(v@, start as int, hi as int));
            assert(entries_ok(v@, start as int, new_hi as int));
            if live_merged(s0, lo as int, hi0 as int) {
                assert(forall|i: int|
                    start <= i < hi ==> (#[trigger] pre2[i]).is_normal());
                assert(v@ == pre2 && start as int + k == hi as int);
            }
        }
        let ghost pre3 = v@;
        sort_during_merging(v, start, new_hi);
        proof {
            lemma_perm_region(pre3, v@, start as int, new_hi as int);
            lemma_step_props(pre3, v@, lo as int, hi0 as int, start as int, new_hi as int);
            lemma_cross_disjoint(pre3, v@, lo as int, hi0 as int, start as int, new_hi as int);
            lemma_cross_family_perm(
                pre3,
                v@,
                lo as int,
                hi0 as int,
                start as int,
                new_hi as int,
            );
        }
        let mut ns = start;
        while ns < new_hi && v[ns].range().prefix_length() == pk_exec
            invariant
                lo <= start <= ns <= new_hi <= hi0 <= v@.len(),
                entries_ok(v@, start as int, new_hi as int),
                pk_exec as int == pk,
                forall|t: int| start <= t < ns ==> (#[trigger] v@[t]).blk().plen == pk,
            decreases new_hi - ns,
        {
            ns += 1;
        }
        proof {
            // Every entry of the working run now has prefix length at
            // most pk: a chunk leftover kept pk, a fresh parent has
            // pk - 1, and everything beyond the chunk had less.
            assert(level_bound(pre2, start as int, hi as int, pk)) by {
                assert forall|i: int|
                    start <= i < hi && (#[trigger] pre2[i]).is_normal() implies pre2[i
                ].blk().plen <= pk by {
                    if i < ce {
                        assert(pre2[i] == pre1[i] || pre2[i].blk().plen == pre1[
                            start as int].blk().plen - 1);
                    } else {
                        assert(pre2[i] == pre1[i]);
                    }
                }
            }
            // The leftovers of this level cannot pair with each other,
            // and fresh parents or later levels have other lengths.
            assert(level_merged(pre2, start as int, hi as int, pk)) by {
                assert forall|p: int, q: int|
                    start <= p < hi && start <= q < hi && p != q && (
                    #[trigger] pre2[p]).is_normal() && (#[trigger] pre2[q]).is_normal() && pre2[
                    p].blk().plen == pk && pre2[q].blk().plen == pk implies !sibling_mergeable(
                    pre2[p].blk(),
                    pre2[q].blk(),
                ) by {
                    lemma_block_size_pos_any(pre2[p].blk());
                    if p < ce && q < ce {
                    } else if p >= ce && q >= ce {
                        assert(pre2[p] == pre1[p] && pre2[q] == pre1[q]);
                        assert(false);
                    } else {
                        assert(if p >= ce {
                            pre2[p] == pre1[p]
                        } else {
                            true
                        });
                        assert(if q >= ce {
                            pre2[q] == pre1[q]
                        } else {
                            true
                        });
                        assert(false);
                    }
                }
            }
            assert forall|j: int| new_hi <= j < hi implies !(#[trigger] v@[j]).is_normal() by {
                assert(!pre3[j].is_normal());
                assert(v@[j] == pre3[j]);
            }
            assert(live_disjoint(pre2, start as int, hi as int));
            lemma_perm_region(pre2, pre3, start as int, hi as int);
            assert(level_merged(pre3, start as int, hi as int, pk));
            assert(level_bound(pre3, start as int, hi as int, pk));
            assert(level_merged(pre3, start as int, new_hi as int, pk));
            assert(level_bound(pre3, start as int, new_hi as int, pk));
            assert(live_disjoint(pre3, start as int, new_hi as int));
            lemma_perm_region(pre3, v@, start as int, new_hi as int);
            assert(level_merged(v@, start as int, new_hi as int, pk));
            assert(level_bound(v@, start as int, new_hi as int, pk));
            assert(level_merged(v@, start as int, hi as int, pk)) by {
                assert forall|p: int, q: int|
                    start <= p < hi && start <= q < hi && p != q && (
                    #[trigger] v@[p]).is_normal() && (#[trigger] v@[q]).is_normal() && v@[
                    p].blk().plen == pk && v@[q].blk().plen == pk implies !sibling_mergeable(
                    v@[p].blk(),
                    v@[q].blk(),
                ) by {
                    assert(p < new_hi && q < new_hi);
                }
            }
            // Termination: either the run shrank, or nothing merged and
            // the whole chunk is skipped.
            if new_hi == hi {
                assert(forall|i: int|
                    start <= i < hi ==> (#[trigger] pre2[i]).is_normal());
                assert(pre2 == pre1);
                assert(v@.subrange(start as int, new_hi as int).to_multiset() == pre1.subrange(
                    start as int,
                    new_hi as int,
                ).to_multiset()) by {
                    assert(pre3 == pre2);
                }
                assert(ns > start) by {
                    broadcast use group_to_multiset_ensures;

                    let t1 = pre1.subrange(start as int, new_hi as int);
                    let t2 = v@.subrange(start as int, new_hi as int);
                    assert(t1[0] == pre1[start as int]);
                    assert(t1.contains(pre1[start as int]));
                    assert(t1.to_multiset().count(pre1[start as int]) > 0);
                    assert(t2.to_multiset().count(pre1[start as int]) > 0);
                    assert(t2.contains(pre1[start as int]));
                    let w = choose|w: int| 0 <= w < t2.len() && t2[w] == pre1[start as int];
                    assert(v@[start + w] == pre1[start as int]);
                    assert(v@[start + w].blk().plen == pk);
                    if w > 0 {
                        assert(during_le(v@[start as int], v@[start + w]));
                        assert(v@[start as int].blk().plen >= pk);
                    }
                    assert(v@[start as int].blk().plen == pk);
                }
            }
            // The new finalized prefix: old finalized entries, then the
            // leftovers of this level.
            assert forall|i: int, j: int|
                lo <= i < ns && ns <= j < new_hi implies (#[trigger] v@[i]).blk().plen > (
            #[trigger] v@[j]).blk().plen by {
                assert(v@[j].is_normal());
                assert(v@[j].blk().plen <= pk);
                if i >= start {
                    assert(v@[i].blk().plen == pk);
                    assert(during_le(v@[ns as int], v@[j]) || j == ns);
                    assert(v@[ns as int].blk().plen != pk);
                    assert(v@[ns as int].blk().plen <= pk);
                    if j > ns {
                        assert(v@[j].blk().plen <= v@[ns as int].blk().plen);
                    }
                } else {
                    assert(v@[i].blk().plen > pk) by {
                        assert(pre1[start as int].blk().plen == pk);
                        assert(v@[i] == pre1[i]);
                    }
                }
            }
            assert forall|i: int, j: int|
                lo <= i < ns && lo <= j < ns && i != j implies !sibling_mergeable(
                (#[trigger] v@[i]).blk(),
                (#[trigger] v@[j]).blk(),
            ) by {
                if i >= start && j >= start {
                    assert(v@[i].blk().plen == pk && v@[j].blk().plen == pk);
                    assert(v@[i].is_normal() && v@[j].is_normal());
                } else if i < start && j < start {
                    assert(v@[i] == pre1[i] && v@[j] == pre1[j]);
                } else {
                    let (fi, ci): (int, int) = if i < start {
                        (i, j)
                    } else {
                        (j, i)
                    };
                    assert(v@[fi] == pre1[fi]);
                    assert(v@[fi].blk().plen > pk) by {
                        assert(pre1[start as int].blk().plen == pk);
                    }
                    assert(v@[ci].blk().plen == pk);
                }
            }
            assert(entries_ok(v@, lo as int, new_hi as int)) by {
                assert forall|j: int| lo <= j < new_hi implies (#[trigger] v@[j]).ok() by {
                    if j < start {
                        assert(v@[j] == pre3[j] && pre3[j] == pre2[j] && pre2[j] == pre1[j]);
                    }
                }
            }
            assert forall|j: int| new_hi <= j < hi0 implies !(#[trigger] v@[j]).is_normal() by {
                if j >= hi {
                    assert(v@[j] == pre3[j] && pre3[j] == pre2[j] && pre2[j] == pre1[j]);
                }
            }
            if live_merged(s0, lo as int, hi0 as int) {
                assert(pre3 == pre2 && pre2 == pre1);
                lemma_untouched_multiset(
                    pre3,
                    v@,
                    lo as int,
                    hi0 as int,
                    start as int,
                    new_hi as int,
                );
                assert(v@.subrange(lo as int, hi0 as int).to_multiset() == s0.subrange(
                    lo as int,
                    hi0 as int,
                ).to_multiset());
                lemma_region_sub(pre3, lo as int, hi0 as int);
                lemma_region_sub(v@, lo as int, hi0 as int);
                lemma_perm_facts(
                    pre3.subrange(lo as int, hi0 as int),
                    v@.subrange(lo as int, hi0 as int),
                );
                assert(live_merged(v@, lo as int, hi0 as int));
                assert(new_hi == hi0);
            }
        }
        start = ns;
        hi = new_hi;
    }
    proof {
        assert forall|i: int, j: int|
            lo <= i < hi0 && lo <= j < hi0 && i != j && (#[trigger] v@[i]).is_normal() && (
            #[trigger] v@[j]).is_normal() implies blocks_disjoint(v@[i].blk(), v@[j].blk())
            && !sibling_mergeable(v@[i].blk(), v@[j].blk()) by {
            assert(i < hi && j < hi);
        }
        // An entry of the result is selected exactly when it shares an
        // address with a selected entry of this run's input: selection
        // soundness gives one direction, and the kept selected coverage
        // plus disjointness of the results the other.
        let base = icov_r(s0, lo as int, hi0 as int);
        assert(no_spurious(s0, lo as int, hi0 as int, base)) by {
            assert forall|i: int|
                lo <= i < hi0 && (#[trigger] s0[i]).is_normal() && s0[i].sel() implies meets(
                s0[i].blk(),
                base,
            ) by {
                lemma_covers_self(s0[i].blk());
                assert(covp(s0[i], (s0[i].blk().v6, s0[i].blk().addr)));
                assert(base.contains((s0[i].blk().v6, s0[i].blk().addr)));
            }
        }
        assert(no_spurious(v@, lo as int, hi0 as int, base));
        assert forall|i: int| lo <= i < hi implies ((#[trigger] v@[i]).sel() <==> meets(
            v@[i].blk(),
            base,
        )) by {
            if meets(v@[i].blk(), base) {
                let x = choose|x: int|
                    covers(v@[i].blk(), x) && #[trigger] base.contains((v@[i].blk().v6, x));
                let p = (v@[i].blk().v6, x);
                assert(icov_r(v@, lo as int, hi0 as int).contains(p));
                let j = choose|j: int|
                    lo <= j < hi0 && covp(#[trigger] v@[j], p) && v@[j].sel();
                assert(j < hi);
                if j != i {
                    assert(blocks_disjoint(v@[i].blk(), v@[j].blk()));
                    lemma_disjoint_points(v@[i].blk(), v@[j].blk());
                    assert(false);
                }
                assert(v@[i].sel());
            }
        }
    }
    hi
}

/// Merges all provided ranges in place, returning the number of valid
/// ranges, which occupy the front of the list afterwards; the entries
/// past that count are invalid and must not be read (the caller is
/// expected to truncate, or to use [`merge_ranges`](crate::merge_ranges),
/// which does).  Works in place: no allocation.
///
/// The contract, over the family-tagged address sets the entries cover:
/// the valid results cover exactly the addresses the input covered; a
/// result is selected exactly when it shares an address with a selected
/// input entry (so no selected address is lost); no two results overlap,
/// and no two are siblings a further merge could combine; the number of
/// results is at most the number of inputs; and merging an
/// already-merged list only reorders it.
#[verifier::rlimit(100)]
pub fn merge_ranges_slice<R: Range>(ranges: &mut Vec<RangeInterest<R>>) -> (k: usize)
    requires
        forall|i: int| 0 <= i < old(ranges)@.len() ==> (#[trigger] old(ranges)@[i]).ok(),
    ensures
        final(ranges)@.len() == old(ranges)@.len(),
        k as int <= old(ranges)@.len(),
        entries_ok(final(ranges)@, 0, k as int),
        forall|i: int|
            k as int <= i < final(ranges)@.len() ==> !(#[trigger] final(ranges)@[i]).is_normal(),
        cov_r(final(ranges)@, 0, k as int) == cov_r(
            old(ranges)@,
            0,
            old(ranges)@.len() as int,
        ),
        icov_r(old(ranges)@, 0, old(ranges)@.len() as int).subset_of(
            icov_r(final(ranges)@, 0, k as int),
        ),
        forall|i: int|
            0 <= i < k as int ==> ((#[trigger] final(ranges)@[i]).sel() <==> meets(
                final(ranges)@[i].blk(),
                icov_r(old(ranges)@, 0, old(ranges)@.len() as int),
            )),
        live_merged(final(ranges)@, 0, k as int),
        live_merged(old(ranges)@, 0, old(ranges)@.len() as int) ==> k as int == old(
            ranges,
        )@.len() && final(ranges)@.subrange(0, k as int).to_multiset() == old(
            ranges,
        )@.to_multiset(),
{
    broadcast use vstd::seq_lib::group_filter_ensures;

    let ghost s0 = old(ranges)@;
    let ghost n_int = s0.len() as int;
    let ghost base = icov_r(s0, 0, n_int);
    let n = ranges.len();
    proof {
        // Initially, a selected entry meets the selected coverage
        // through its own first address.
        assert(no_spurious(s0, 0, n_int, base)) by {
            assert forall|i: int|
                0 <= i < n_int && (#[trigger] s0[i]).is_normal() && s0[i].sel() implies meets(
                s0[i].blk(),
                base,
            ) by {
                lemma_covers_self(s0[i].blk());
                assert(covp(s0[i], (s0[i].blk().v6, s0[i].blk().addr)));
                assert(base.contains((s0[i].blk().v6, s0[i].blk().addr)));
            }
        }
        if live_merged(s0, 0, n_int) {
            assert(live_disjoint(s0, 0, n_int));
        }
    }
    sort_before_merging(ranges, 0, n);
    let ghost g1 = ranges@;
    proof {
        lemma_perm_region(s0, g1, 0, n_int);
        lemma_step_props(s0, g1, 0, n_int, 0, n_int);
        assert(no_spurious(g1, 0, n_int, base));
        if live_merged(s0, 0, n_int) {
            assert(s0.subrange(0, n_int) =~= s0);
            assert(g1.subrange(0, n_int) =~= g1);
            lemma_perm_facts(s0, g1);
        }
    }
    // Split the sorted list into its IPv4 run and its IPv6 run.
    let mut split: usize = 0;
    while split < n && !ranges[split].range().is_ipv6()
        invariant
            0 <= split <= n == ranges@.len(),
            ranges@ == g1,
            entries_ok(ranges@, 0, ranges@.len() as int),
            forall|t: int| 0 <= t < split ==> !(#[trigger] g1[t]).blk().v6,
        decreases n - split,
    {
        split += 1;
    }
    proof {
        assert forall|j: int| split <= j < n_int implies (#[trigger] g1[j]).blk().v6 by {
            assert(before_le(g1[split as int], g1[j]) || j == split);
        }
        assert(live_family(g1, 0, split as int, false));
        assert(live_family(g1, split as int, n_int, true));
        assert(one_family(g1, 0, split as int));
        assert(one_family(g1, split as int, n_int));
        assert(sorted_before(g1, 0, split as int));
        assert(sorted_before(g1, split as int, n_int));
    }
    let h4 = process_run(ranges, 0, split);
    let ghost g5 = ranges@;
    proof {
        lemma_step_props(g1, g5, 0, n_int, 0, split as int);
        assert forall|j: int| split <= j < n_int implies #[trigger] g5[j] == g1[j] by {}
        assert(live_family(g5, split as int, n_int, true)) by {
            assert forall|j: int|
                split <= j < n_int && (#[trigger] g5[j]).is_normal() implies g5[j].blk().v6 by {
                assert(g5[j] == g1[j]);
            }
        }
        assert(entries_ok(g5, split as int, n_int)) by {
            assert forall|j: int| split <= j < n_int implies (#[trigger] g5[j]).ok() by {
                assert(g5[j] == g1[j]);
            }
        }
        assert(one_family(g5, split as int, n_int)) by {
            assert forall|p: int, q: int|
                split <= p < n_int && split <= q < n_int && (#[trigger] g5[p]).is_normal() && (
                #[trigger] g5[q]).is_normal() implies g5[p].blk().v6 == g5[q].blk().v6 by {
                assert(g5[p] == g1[p] && g5[q] == g1[q]);
            }
        }
        assert(sorted_before(g5, split as int, n_int)) by {
            assert forall|p: int, q: int| split <= p < q < n_int implies before_le(
                #[trigger] g5[p],
                #[trigger] g5[q],
            ) by {
                assert(g5[p] == g1[p] && g5[q] == g1[q]);
            }
        }
        assert(no_spurious(g5, split as int, n_int, base)) by {
            assert forall|j: int|
                split <= j < n_int && (#[trigger] g5[j]).is_normal() && g5[j].sel() implies meets(
                g5[j].blk(),
                base,
            ) by {
                assert(g5[j] == g1[j]);
            }
        }
    }
    let h6 = process_run(ranges, split, n);
    let ghost g9 = ranges@;
    proof {
        lemma_step_props(g5, g9, 0, n_int, split as int, n_int);
        // The two runs never touch each other, and their families keep
        // them disjoint and unmergeable across the split.
        assert(live_family(g9, 0, split as int, false)) by {
            assert forall|j: int|
                0 <= j < split && (#[trigger] g9[j]).is_normal() implies !g9[j].blk().v6 by {
                assert(g9[j] == g5[j]);
            }
        }
        assert(live_family(g9, split as int, n_int, true));
        assert(live_merged(g9, 0, n_int)) by {
            assert forall|i: int, j: int|
                0 <= i < n_int && 0 <= j < n_int && i != j && (#[trigger] g9[i]).is_normal() && (
                #[trigger] g9[j]).is_normal() implies blocks_disjoint(g9[i].blk(), g9[j].blk())
                && !sibling_mergeable(g9[i].blk(), g9[j].blk()) by {
                if i < split && j < split {
                    assert(g9[i] == g5[i] && g9[j] == g5[j]);
                    assert(i < h4 && j < h4);
                } else if i >= split && j >= split {
                    assert(i < split + (h6 - split) || !g9[i].is_normal());
                } else {
                    assert(g9[i].blk().v6 != g9[j].blk().v6);
                }
            }
        }
        assert(live_ok(g9, 0, n_int)) by {
            assert forall|j: int|
                0 <= j < n_int && (#[trigger] g9[j]).is_normal() implies g9[j].ok() by {
                if j < split {
                    assert(g9[j] == g5[j]);
                    assert(j < h4);
                }
            }
        }
    }
    let k = compact(ranges, 0, n);
    proof {
        lemma_perm_region(g9, ranges@, 0, n_int);
        assert forall|j: int| 0 <= j < k implies (#[trigger] ranges@[j]).is_normal() by {
            let t = lives(g9.subrange(0, n_int));
            assert(ranges@.subrange(0, k as int) == t);
            assert(ranges@[j] == t[j]);
        }
        assert(entries_ok(ranges@, 0, k as int));
        assert(live_merged(ranges@, 0, n_int));
        // Coverage of the packed prefix is the coverage of the whole.
        lemma_cov_dummy(ranges@, k as int, n_int);
        lemma_cov_split(ranges@, 0, k as int, n_int);
        assert(cov_r(ranges@, 0, k as int) =~= cov_r(ranges@, 0, n_int));
        assert(icov_r(ranges@, 0, k as int) =~= icov_r(ranges@, 0, n_int));
        // Chain the coverage facts back to the input.
        assert(cov_r(g9, 0, n_int) == cov_r(g5, 0, n_int) && cov_r(g5, 0, n_int) == cov_r(
            g1,
            0,
            n_int,
        ) && cov_r(g1, 0, n_int) == cov_r(s0, 0, n_int));
        assert(cov_r(ranges@, 0, k as int) == cov_r(s0, 0, n_int));
        assert(base.subset_of(icov_r(ranges@, 0, k as int)));
        assert(no_spurious(ranges@, 0, k as int, base)) by {
            assert(no_spurious(ranges@, 0, n_int, base));
        }
        // An output entry is selected exactly when it shares an address
        // with a selected input entry: one way is selection soundness;
        // the other holds because the selected input address is covered
        // by some selected output, which overlaps this one and so, with
        // all outputs disjoint, is this one.
        assert forall|i: int|
            0 <= i < k as int implies ((#[trigger] ranges@[i]).sel() <==> meets(
            ranges@[i].blk(),
            base,
        )) by {
            if meets(ranges@[i].blk(), base) {
                let x = choose|x: int|
                    covers(ranges@[i].blk(), x) && #[trigger] base.contains(
                        (ranges@[i].blk().v6, x),
                    );
                let p = (ranges@[i].blk().v6, x);
                assert(icov_r(ranges@, 0, k as int).contains(p));
                let j = choose|j: int|
                    0 <= j < k as int && covp(#[trigger] ranges@[j], p) && ranges@[j].sel();
                if j != i {
                    assert(blocks_disjoint(ranges@[i].blk(), ranges@[j].blk()));
                    lemma_disjoint_points(ranges@[i].blk(), ranges@[j].blk());
                    assert(false);
                }
                assert(ranges@[i].sel());
            }
        }
        if live_merged(s0, 0, n_int) {
            assert(live_merged(g1, 0, n_int));
            assert(h4 == split);
            lemma_untouched_multiset(g1, g5, 0, n_int, 0, split as int);
            lemma_region_sub(g1, 0, n_int);
            lemma_region_sub(g5, 0, n_int);
            assert(g1.subrange(0, n_int) =~= g1);
            lemma_perm_facts(g1.subrange(0, n_int), g5.subrange(0, n_int));
            assert(live_merged(g5, 0, n_int));
            assert(h6 == n);
            lemma_untouched_multiset(g5, g9, 0, n_int, split as int, n_int);
            lemma_region_sub(g9, 0, n_int);
            lemma_perm_facts(g5.subrange(0, n_int), g9.subrange(0, n_int));
            assert(g9.subrange(0, n_int).to_multiset() == s0.subrange(0, n_int).to_multiset())
                by {
                assert(s0.subrange(0, n_int) =~= s0);
                assert(g1.subrange(0, n_int) =~= g1);
            }
            assert(forall|j: int| 0 <= j < n_int ==> (#[trigger] g9[j]).is_normal()) by {
                assert(forall|j: int|
                    0 <= j < split ==> (#[trigger] g9[j]).is_normal() && g9[j] == g5[j]);
            }
            assert(ranges@ == g9 && k as int == n_int);
            assert(s0.subrange(0, n_int) =~= s0);
            assert(ranges@.subrange(0, k as int) =~= g9.subrange(0, n_int));
        }
    }
    k
}

/// Process one family's run: eliminate overlaps, compact, re-sort by
/// block size, and coalesce siblings level by level.  Returns the end
/// of the packed valid prefix of the run; the rest of the run is left
/// tombstoned.
#[verifier::rlimit(100)]
fn process_run<R: Range>(v: &mut Vec<RangeInterest<R>>, lo: usize, hi: usize) -> (h: usize)
    requires
        lo <= hi <= old(v)@.len(),
        entries_ok(old(v)@, lo as int, hi as int),
        one_family(old(v)@, lo as int, hi as int),
        sorted_before(old(v)@, lo as int, hi as int),
    ensures
        final(v)@.len() == old(v)@.len(),
        untouched(old(v)@, final(v)@, lo as int, hi as int),
        lo <= h <= hi,
        entries_ok(final(v)@, lo as int, h as int),
        forall|j: int| h <= j < hi ==> !(#[trigger] final(v)@[j]).is_normal(),
        forall|f: bool|
            #[trigger] live_family(old(v)@, lo as int, hi as int, f) ==> live_family(
                final(v)@,
                lo as int,
                hi as int,
                f,
            ),
        cov_r(final(v)@, lo as int, hi as int) == cov_r(old(v)@, lo as int, hi as int),
        icov_r(old(v)@, lo as int, hi as int).subset_of(
            icov_r(final(v)@, lo as int, hi as int),
        ),
        forall|b: Set<(bool, int)>|
            #[trigger] no_spurious(old(v)@, lo as int, hi as int, b) ==> no_spurious(
                final(v)@,
                lo as int,
                hi as int,
                b,
            ),
        live_merged(final(v)@, lo as int, hi as int),
        live_merged(old(v)@, lo as int, hi as int) ==> h == hi && final(v)@.subrange(
            lo as int,
            hi as int,
        ).to_multiset() == old(v)@.subrange(lo as int, hi as int).to_multiset(),
{
    broadcast use vstd::seq_lib::group_filter_ensures;

    let ghost s0 = old(v)@;
    remove_overlapping_ranges_in_place(v, lo, hi);
    let ghost g2 = v@;
    proof {
        lemma_step_props(s0, g2, lo as int, hi as int, lo as int, hi as int);
        if live_merged(s0, lo as int, hi as int) {
            assert(live_disjoint(s0, lo as int, hi as int));
            assert(g2 == s0);
        }
    }
    let c = compact(v, lo, hi);
    let mid = lo + c;
    let ghost g3 = v@;
    proof {
        assert(live_ok(g2, lo as int, hi as int));
        lemma_perm_region(g2, g3, lo as int, hi as int);
        lemma_step_props(g2, g3, lo as int, hi as int, lo as int, hi as int);
        assert forall|j: int| lo <= j < mid implies (#[trigger] g3[j]).is_normal() by {
            let t = lives(g2.subrange(lo as int, hi as int));
            assert(g3.subrange(lo as int, mid as int) == t);
            assert(g3[j] == t[j - lo]);
        }
        assert(entries_ok(g3, lo as int, mid as int));
        lemma_cross_family_perm(g2, g3, lo as int, hi as int, lo as int, hi as int);
        if live_merged(s0, lo as int, hi as int) {
            assert(forall|i: int| lo <= i < hi ==> (#[trigger] g2[i]).is_normal());
            assert(g3 == g2 && mid == hi);
        }
    }
    sort_during_merging(v, lo, mid);
    let ghost g4 = v@;
    proof {
        lemma_perm_region(g3, g4, lo as int, mid as int);
        lemma_step_props(g3, g4, lo as int, hi as int, lo as int, mid as int);
        lemma_cross_family_perm(g3, g4, lo as int, hi as int, lo as int, mid as int);
        lemma_cross_disjoint(g3, g4, lo as int, hi as int, lo as int, mid as int);
        assert(one_family(g4, lo as int, mid as int));
        assert(live_disjoint(g4, lo as int, mid as int));
        if live_merged(s0, lo as int, hi as int) {
            lemma_region_sub(g3, lo as int, hi as int);
            lemma_region_sub(g4, lo as int, hi as int);
            lemma_untouched_multiset(g3, g4, lo as int, hi as int, lo as int, mid as int);
            lemma_perm_facts(
                g3.subrange(lo as int, hi as int),
                g4.subrange(lo as int, hi as int),
            );
            assert(live_merged(g4, lo as int, hi as int));
        }
    }
    let h = merge_ranges_in_place(v, lo, mid);
    proof {
        lemma_step_props(g4, v@, lo as int, hi as int, lo as int, mid as int);
        assert forall|j: int| h <= j < hi implies !(#[trigger] v@[j]).is_normal() by {
            if j >= mid {
                assert(v@[j] == g4[j] && g4[j] == g3[j]);
            }
        }
        assert(live_merged(v@, lo as int, hi as int)) by {
            assert forall|i: int, j: int|
                lo <= i < hi && lo <= j < hi && i != j && (#[trigger] v@[i]).is_normal() && (
                #[trigger] v@[j]).is_normal() implies blocks_disjoint(v@[i].blk(), v@[j].blk())
                && !sibling_mergeable(v@[i].blk(), v@[j].blk()) by {
                assert(i < mid && j < mid);
            }
        }
        assert forall|f: bool|
            live_family(s0, lo as int, hi as int, f) implies #[trigger] live_family(
            v@,
            lo as int,
            hi as int,
            f,
        ) by {
            assert(live_family(g2, lo as int, hi as int, f));
            assert(live_family(g3, lo as int, hi as int, f)) by {
                lemma_cross_family_perm(g2, g3, lo as int, hi as int, lo as int, hi as int);
            }
            assert(live_family(g4, lo as int, hi as int, f));
            assert(live_family(g4, lo as int, mid as int, f));
            assert(live_family(v@, lo as int, mid as int, f));
            assert forall|j: int|
                lo <= j < hi && (#[trigger] v@[j]).is_normal() implies v@[j].blk().v6 == f by {
                assert(j < mid);
            }
        }
        if live_merged(s0, lo as int, hi as int) {
            assert(live_merged(g4, lo as int, mid as int));
            assert(h == mid && mid == hi);
            lemma_untouched_multiset(g4, v@, lo as int, hi as int, lo as int, mid as int);
        }
    }
    h
}

/// The selected coverage of a merged list: no selected input address is
/// lost, and the selected results cover only addresses the input
/// covered.  Both follow from the merge contract: the results cover
/// exactly the input's addresses, and a result is selected exactly when
/// it shares an address with a selected input entry.
pub proof fn lemma_selected_coverage<R: Range>(
    inp: Seq<RangeInterest<R>>,
    out: Seq<RangeInterest<R>>,
    k: int,
)
    requires
        0 <= k <= out.len(),
        cov_r(out, 0, k) == cov_r(inp, 0, inp.len() as int),
        forall|i: int|
            0 <= i < k ==> ((#[trigger] out[i]).sel() <==> meets(
                out[i].blk(),
                icov_r(inp, 0, inp.len() as int),
            )),
    ensures
        icov_r(inp, 0, inp.len() as int).subset_of(icov_r(out, 0, k)),
        icov_r(out, 0, k).subset_of(cov_r(inp, 0, inp.len() as int)),
{
    let base = icov_r(inp, 0, inp.len() as int);
    assert forall|p: (bool, int)| base.contains(p) implies icov_r(out, 0, k).contains(p) by {
        let w = choose|w: int|
            0 <= w < inp.len() && covp(#[trigger] inp[w], p) && inp[w].sel();
        assert(cov_r(inp, 0, inp.len() as int).contains(p));
        assert(cov_r(out, 0, k).contains(p));
        let j = choose|j: int| 0 <= j < k && covp(#[trigger] out[j], p);
        assert(covers(out[j].blk(), p.1) && base.contains((out[j].blk().v6, p.1)));
        assert(meets(out[j].blk(), base));
        assert(out[j].sel());
    }
    assert forall|p: (bool, int)| icov_r(out, 0, k).contains(p) implies cov_r(
        inp,
        0,
        inp.len() as int,
    ).contains(p) by {
        let j = choose|j: int| 0 <= j < k && covp(#[trigger] out[j], p) && out[j].sel();
        assert(cov_r(out, 0, k).contains(p));
    }
}

/// Family isolation: a merged entry covers only addresses that input
/// entries of its own family covered; the two families never mix.
pub proof fn lemma_family_isolation<R: Range>(
    inp: Seq<RangeInterest<R>>,
    out: Seq<RangeInterest<R>>,
    k: int,
    i: int,
)
    requires
        0 <= k <= out.len(),
        0 <= i < k,
        out[i].is_normal(),
        cov_r(out, 0, k) == cov_r(inp, 0, inp.len() as int),
    ensures
        forall|x: int|
            covers(out[i].blk(), x) ==> exists|j: int|
                0 <= j < inp.len() && covp(#[trigger] inp[j], (out[i].blk().v6, x)),
{
    assert forall|x: int| covers(out[i].blk(), x) implies exists|j: int|
        0 <= j < inp.len() && covp(#[trigger] inp[j], (out[i].blk().v6, x)) by {
        let p = (out[i].blk().v6, x);
        assert(covp(out[i], p));
        assert(cov_r(out, 0, k).contains(p));
        assert(cov_r(inp, 0, inp.len() as int).contains(p));
    }
}

/// Idempotence: the valid entries a merge leaves behind satisfy the very
/// condition under which a merge only permutes its input, so merging a
/// merged list again gives the same entries, reordered at most.  The
/// parameters stand for the two results: `out1` is a first merge's
/// truncated output, which the merge contract guarantees `live_merged`
/// and all valid; `k2` and `out2` are what a second merge of `out1`
/// returned.
pub proof fn lemma_merge_idempotent<R: Range>(
    out1: Seq<RangeInterest<R>>,
    out2: Seq<RangeInterest<R>>,
    k2: int,
)
    requires
        live_merged(out1, 0, out1.len() as int),
        live_merged(out1, 0, out1.len() as int) ==> k2 == out1.len() && out2.subrange(
            0,
            k2,
        ).to_multiset() == out1.to_multiset(),
    ensures
        k2 == out1.len(),
        out2.subrange(0, k2).to_multiset() == out1.to_multiset(),
{
}

} // verus!
