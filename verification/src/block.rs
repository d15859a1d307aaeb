//! The mathematical model of CIDR blocks.
//!
//! A block is described by its address family, the first address of the
//! block, and its prefix length.  All executable range types in this crate
//! are specified against this model: their contracts speak of the `Block`
//! each value denotes, and the merge engine's correctness statements are
//! phrased over sets of addresses covered by blocks.

use vstd::prelude::*;

verus! {

use vstd::arithmetic::power2::{
    lemma_pow2_adds, lemma_pow2_pos, lemma_pow2_strictly_increases, pow2,
};
use vstd::arithmetic::div_mod::lemma_fundamental_div_mod;

/// The model of a CIDR block: family, first address, prefix length.
pub ghost struct Block {
    /// `true` for an IPv6 block, `false` for an IPv4 block.
    pub v6: bool,
    /// The first address of the block.
    pub addr: int,
    /// The prefix length.
    pub plen: int,
}

/// The number of address bits of a family: 32 for IPv4, 128 for IPv6.
pub open spec fn family_width(v6: bool) -> int {
    if v6 {
        128
    } else {
        32
    }
}

/// The number of addresses a block covers.
pub open spec fn block_size(b: Block) -> int {
    pow2((family_width(b.v6) - b.plen) as nat) as int
}

/// A well-formed block: the prefix length is bounded by the family width,
/// the address lies in the family's address space, and the address is
/// aligned, i.e. it really is the first address of the block it describes.
pub open spec fn wf_block(b: Block) -> bool {
    &&& 0 <= b.plen <= family_width(b.v6)
    &&& 0 <= b.addr < pow2(family_width(b.v6) as nat) as int
    &&& b.addr % block_size(b) == 0
}

/// Whether address `x` lies in block `b` (family left implicit).
pub open spec fn covers(b: Block, x: int) -> bool {
    b.addr <= x < b.addr + block_size(b)
}

/// The family-tagged set of addresses a block covers.
pub open spec fn covered(b: Block) -> Set<(bool, int)> {
    Set::new(|p: (bool, int)| p.0 == b.v6 && covers(b, p.1))
}

/// Every address of `b` lies in `a` (and the families agree).
pub open spec fn block_contains(a: Block, b: Block) -> bool {
    &&& a.v6 == b.v6
    &&& a.addr <= b.addr
    &&& b.addr + block_size(b) <= a.addr + block_size(a)
}

/// The two blocks share no address (blocks of different families never do).
pub open spec fn blocks_disjoint(a: Block, b: Block) -> bool {
    ||| a.v6 != b.v6
    ||| a.addr + block_size(a) <= b.addr
    ||| b.addr + block_size(b) <= a.addr
}

/// Whether `b` is the low half of a valid block one prefix length larger.
pub open spec fn has_parent(b: Block) -> bool {
    b.plen >= 1 && b.addr % (2 * block_size(b)) == 0
}

/// The next larger block starting at the same address.
pub open spec fn parent_block(b: Block) -> Block {
    Block { v6: b.v6, addr: b.addr, plen: b.plen - 1 }
}

/// The block of the same size immediately above `b`: together with `b` it
/// makes up `parent_block(b)` whenever `has_parent(b)` holds.
pub open spec fn buddy_block(b: Block) -> Block {
    Block { v6: b.v6, addr: b.addr + block_size(b), plen: b.plen }
}

/// Two blocks of equal size that combine exactly into the first one's
/// parent.  This is the pairing rule of the adjacency phase of the merge
/// engine: `a` must be the low half of its parent and `b` the high half.
pub open spec fn sibling_mergeable(a: Block, b: Block) -> bool {
    &&& a.v6 == b.v6
    &&& a.plen == b.plen
    &&& has_parent(a)
    &&& block_contains(parent_block(a), b)
}

/// Two distinct multiples of `m` are at least `m` apart.
proof fn lemma_multiple_step(x: int, y: int, m: int)
    requires
        m > 0,
        x % m == 0,
        y % m == 0,
        x < y,
    ensures
        x + m <= y,
{
    lemma_fundamental_div_mod(x, m);
    lemma_fundamental_div_mod(y, m);
    let qx = x / m;
    let qy = y / m;
    assert(x == m * qx && y == m * qy);
    assert(qx < qy) by (nonlinear_arith)
        requires m > 0 && x == m * qx && y == m * qy && x < y,
    ;
    assert(m * qx + m <= m * qy) by (nonlinear_arith)
        requires m > 0 && qx < qy,
    ;
}

/// Anything aligned to a multiple of `m2` is aligned to `m2`.
proof fn lemma_mod_chain(x: int, m1: int, m2: int)
    requires
        m1 > 0,
        m2 > 0,
        m1 % m2 == 0,
        x % m1 == 0,
    ensures
        x % m2 == 0,
{
    lemma_fundamental_div_mod(x, m1);
    lemma_fundamental_div_mod(m1, m2);
    let q1 = x / m1;
    let q2 = m1 / m2;
    assert(x == m2 * (q2 * q1)) by (nonlinear_arith)
        requires x == m1 * q1 && m1 == m2 * q2,
    ;
    assert(x % m2 == 0) by (nonlinear_arith)
        requires m2 > 0 && x == m2 * (q2 * q1),
    ;
}

/// The sum of two multiples of `m` is a multiple of `m`.
proof fn lemma_mod_sum(x: int, y: int, m: int)
    requires
        m > 0,
        x % m == 0,
        y % m == 0,
    ensures
        (x + y) % m == 0,
{
    lemma_fundamental_div_mod(x, m);
    lemma_fundamental_div_mod(y, m);
    let qx = x / m;
    let qy = y / m;
    assert(x + y == (qx + qy) * m) by (nonlinear_arith)
        requires x == m * qx && y == m * qy,
    ;
    vstd::arithmetic::div_mod::lemma_mod_multiples_basic(qx + qy, m);
}

/// Block sizes are positive.
pub proof fn lemma_block_size_pos(b: Block)
    requires
        wf_block(b),
    ensures
        block_size(b) >= 1,
{
    lemma_pow2_pos((family_width(b.v6) - b.plen) as nat);
}

/// Of two blocks of one family, the one with the smaller prefix length is
/// the larger, and its size is a multiple of the smaller one's size.
pub proof fn lemma_size_divides(a: Block, b: Block)
    requires
        wf_block(a),
        wf_block(b),
        a.v6 == b.v6,
        a.plen <= b.plen,
    ensures
        block_size(b) <= block_size(a),
        block_size(a) % block_size(b) == 0,
        block_size(b) >= 1,
{
    let w = family_width(a.v6);
    let ea = (w - a.plen) as nat;
    let eb = (w - b.plen) as nat;
    lemma_pow2_pos(ea);
    lemma_pow2_pos(eb);
    lemma_pow2_adds(eb, (b.plen - a.plen) as nat);
    lemma_pow2_pos((b.plen - a.plen) as nat);
    let k = pow2((b.plen - a.plen) as nat) as int;
    assert(block_size(a) == block_size(b) * k);
    assert(block_size(b) * 1 <= block_size(b) * k) by (nonlinear_arith)
        requires block_size(b) >= 1 && k >= 1,
    ;
    assert((block_size(b) * k) % block_size(b) == 0) by (nonlinear_arith)
        requires block_size(b) > 0,
    ;
}

/// Containment orders the prefix lengths: a block inside another is at
/// most as large.
pub proof fn lemma_contains_plen(a: Block, b: Block)
    requires
        wf_block(a),
        wf_block(b),
        block_contains(a, b),
    ensures
        a.plen <= b.plen,
        block_size(b) <= block_size(a),
{
    lemma_block_size_pos(a);
    lemma_block_size_pos(b);
    if a.plen > b.plen {
        lemma_pow2_strictly_increases(
            (family_width(a.v6) - a.plen) as nat,
            (family_width(a.v6) - b.plen) as nat,
        );
    }
}

/// Two well-formed blocks of one family are nested or disjoint; overlap
/// without containment is impossible for aligned power-of-two blocks.
pub proof fn lemma_nested_or_disjoint(a: Block, b: Block)
    requires
        wf_block(a),
        wf_block(b),
        a.v6 == b.v6,
    ensures
        block_contains(a, b) || block_contains(b, a) || blocks_disjoint(a, b),
{
    if a.plen <= b.plen {
        lemma_nested_or_disjoint_ordered(a, b);
    } else {
        lemma_nested_or_disjoint_ordered(b, a);
    }
}

proof fn lemma_nested_or_disjoint_ordered(a: Block, b: Block)
    requires
        wf_block(a),
        wf_block(b),
        a.v6 == b.v6,
        a.plen <= b.plen,
    ensures
        block_contains(a, b) || blocks_disjoint(a, b),
{
    let sa = block_size(a);
    let sb = block_size(b);
    lemma_size_divides(a, b);
    lemma_block_size_pos(a);
    if !blocks_disjoint(a, b) {
        // The intervals overlap: b.addr < a.addr + sa and a.addr < b.addr + sb.
        lemma_mod_chain(a.addr, sa, sb);
        if b.addr < a.addr {
            lemma_multiple_step(b.addr, a.addr, sb);
            assert(false);
        }
        assert(a.addr <= b.addr);
        lemma_mod_sum(a.addr, sa, sb);
        if a.addr + sa <= b.addr {
            assert(false);
        }
        lemma_multiple_step(b.addr, a.addr + sa, sb);
    }
}

/// Facts about the parent of a block that has one: it is well formed,
/// twice the size, and contains both the block and its buddy, whose
/// addresses together make up exactly the parent's addresses.
pub proof fn lemma_parent_block(b: Block)
    requires
        wf_block(b),
        has_parent(b),
    ensures
        wf_block(parent_block(b)),
        wf_block(buddy_block(b)),
        block_size(parent_block(b)) == 2 * block_size(b),
        block_size(buddy_block(b)) == block_size(b),
        block_contains(parent_block(b), b),
        block_contains(parent_block(b), buddy_block(b)),
        forall|x: int| covers(parent_block(b), x) <==> covers(b, x) || covers(buddy_block(b), x),
{
    let w = family_width(b.v6);
    let s = block_size(b);
    lemma_block_size_pos(b);
    lemma_pow2_adds(1, (w - b.plen) as nat);
    assert(pow2(1) == 2) by {
        vstd::arithmetic::power2::lemma2_to64();
    }
    assert(block_size(parent_block(b)) == 2 * s);
    // The parent lies inside the address space: its start is a multiple of
    // 2 * s, and the space size pow2(w) is a multiple of 2 * s as well.
    lemma_pow2_adds((w - b.plen + 1) as nat, (b.plen - 1) as nat);
    let k = pow2((b.plen - 1) as nat) as int;
    lemma_pow2_pos((b.plen - 1) as nat);
    assert(pow2(w as nat) as int == (2 * s) * k);
    assert(((2 * s) * k) % (2 * s) == 0) by (nonlinear_arith)
        requires s > 0,
    ;
    if b.addr + 2 * s > pow2(w as nat) as int {
        lemma_multiple_step(b.addr, pow2(w as nat) as int, 2 * s);
        assert(false);
    }
    lemma_mod_sum(b.addr, s, s);
}

/// Between two distinct mergeable siblings, the second is exactly the
/// buddy of the first: the high half of the first one's parent.
pub proof fn lemma_mergeable_is_buddy(a: Block, b: Block)
    requires
        wf_block(a),
        wf_block(b),
        sibling_mergeable(a, b),
        b != a,
    ensures
        b == buddy_block(a),
{
    let s = block_size(a);
    lemma_block_size_pos(a);
    lemma_parent_block(a);
    assert(block_size(b) == s);
    if a.addr == b.addr {
        assert(b == a);
    } else if a.addr < b.addr {
        lemma_multiple_step(a.addr, b.addr, s);
        if a.addr + s < b.addr {
            lemma_multiple_step(a.addr + s, b.addr, s);
            assert(false);
        }
        assert(b.addr == a.addr + s);
        assert(b == buddy_block(a));
    } else {
        assert(false);
    }
}

/// The sizes of the two families' address spaces.
pub proof fn lemma_family_space()
    ensures
        pow2(32) == 0x1_0000_0000,
        pow2(64) == 0x1_0000_0000_0000_0000,
        pow2(128) == 0x1_0000_0000_0000_0000_0000_0000_0000_0000,
{
    vstd::arithmetic::power2::lemma2_to64();
    lemma_pow2_adds(64, 64);
}

/// A multiple of `m` below `m` is zero.
pub proof fn lemma_small_multiple(x: int, m: int)
    requires
        m > 0,
        0 <= x < m,
        x % m == 0,
    ensures
        x == 0,
{
    if x > 0 {
        lemma_multiple_step(0, x, m);
    }
}

/// The block of prefix length zero contains every block of its family.
pub proof fn lemma_universal_contains(a: Block, b: Block)
    requires
        wf_block(a),
        wf_block(b),
        a.v6 == b.v6,
        a.plen == 0,
    ensures
        block_contains(a, b),
        a.addr == 0,
{
    let w = family_width(a.v6);
    lemma_block_size_pos(a);
    lemma_block_size_pos(b);
    lemma_small_multiple(a.addr, block_size(a));
    lemma_size_divides(a, b);
    lemma_mod_chain(pow2(w as nat) as int, block_size(a), block_size(b));
    if b.addr + block_size(b) > pow2(w as nat) as int {
        lemma_multiple_step(b.addr, pow2(w as nat) as int, block_size(b));
        assert(false);
    }
}

/// Containment of a block by a smaller-prefix block, as a computation:
/// round the contained block's address down to the container size.
pub proof fn lemma_contains_floor(a: Block, b: Block)
    requires
        wf_block(a),
        wf_block(b),
        a.v6 == b.v6,
        1 <= a.plen <= b.plen,
    ensures
        block_contains(a, b) <==> (b.addr / block_size(a)) * block_size(a) == a.addr,
{
    let sa = block_size(a);
    let sb = block_size(b);
    lemma_size_divides(a, b);
    lemma_block_size_pos(a);
    lemma_fundamental_div_mod(b.addr, sa);
    let q = b.addr / sa;
    let r = b.addr % sa;
    vstd::arithmetic::div_mod::lemma_mod_bound(b.addr, sa);
    assert(b.addr == sa * q + r && 0 <= r < sa);
    if (b.addr / sa) * sa == a.addr {
        // b starts inside a; b ends inside a because both b's end and
        // a's end are multiples of b's size.
        assert(q * sa == a.addr) by (nonlinear_arith)
            requires sa * q == a.addr + 0 && (b.addr / sa) * sa == a.addr && q == b.addr / sa,
        ;
        assert(a.addr <= b.addr && b.addr < a.addr + sa) by (nonlinear_arith)
            requires b.addr == sa * q + r && 0 <= r < sa && sa * q == a.addr,
        ;
        lemma_mod_chain(a.addr, sa, sb);
        lemma_mod_sum(a.addr, sa, sb);
        if b.addr + sb > a.addr + sa {
            lemma_multiple_step(b.addr, a.addr + sa, sb);
            assert(false);
        }
    }
    if block_contains(a, b) {
        assert(b.addr < a.addr + sa);
        lemma_fundamental_div_mod(a.addr, sa);
        let qa = a.addr / sa;
        assert(a.addr == sa * qa);
        assert(q == qa) by (nonlinear_arith)
            requires
                sa > 0 && b.addr == sa * q + r && 0 <= r < sa && a.addr == sa * qa && a.addr
                    <= b.addr && b.addr < a.addr + sa,
        ;
        assert(q * sa == a.addr) by (nonlinear_arith)
            requires q == qa && a.addr == sa * qa,
        ;
    }
}

/// Having a parent, as a computation: the block index at its own size
/// is even.
pub proof fn lemma_even_half(b: Block)
    requires
        wf_block(b),
        b.plen >= 1,
    ensures
        has_parent(b) <==> (b.addr / block_size(b)) % 2 == 0,
{
    let s = block_size(b);
    lemma_block_size_pos(b);
    lemma_fundamental_div_mod(b.addr, s);
    let q = b.addr / s;
    assert(b.addr == s * q);
    lemma_fundamental_div_mod(q, 2);
    let h = q / 2;
    let pr = q % 2;
    vstd::arithmetic::div_mod::lemma_mod_bound(q, 2);
    assert(q == 2 * h + pr && 0 <= pr < 2);
    if pr == 0 {
        assert(b.addr == (2 * s) * h) by (nonlinear_arith)
            requires b.addr == s * q && q == 2 * h + 0,
        ;
        assert(b.addr % (2 * s) == 0) by (nonlinear_arith)
            requires s > 0 && b.addr == (2 * s) * h,
        ;
    } else {
        assert(b.addr == (2 * s) * h + s) by (nonlinear_arith)
            requires b.addr == s * q && q == 2 * h + 1,
        ;
        assert(b.addr % (2 * s) == s) by (nonlinear_arith)
            requires s > 0 && b.addr == (2 * s) * h + s,
        ;
    }
}

/// A block that another contains covers a subset of its addresses.
pub proof fn lemma_contains_covered(a: Block, b: Block)
    requires
        block_contains(a, b),
    ensures
        forall|x: int| covers(b, x) ==> covers(a, x),
{
}

} // verus!
