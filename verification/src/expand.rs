//! Widening ranges to a minimum network size before a merge: a range
//! smaller than the requested size is replaced by its ancestor of that
//! size, which can help the merge produce fewer ranges.

use vstd::prelude::*;

verus! {

use vstd::arithmetic::power2::pow2;
use vstd::arithmetic::div_mod::lemma_fundamental_div_mod;
use crate::block::{family_width, wf_block, Block};
use crate::range::Range;
use crate::range_interest::RangeInterest;
use crate::std_range::{IpAddress, IpRange};

/// The block of the ancestor of `b` at prefix length `m`, when `m` cuts
/// `b` down; a block already at most that long is kept.
pub open spec fn widened_block(b: Block, m: int) -> Block {
    if b.plen > m {
        let size = pow2((family_width(b.v6) - m) as nat) as int;
        Block { v6: b.v6, addr: b.addr - b.addr % size, plen: m }
    } else {
        b
    }
}

/// The block an entry has after widening under the two minimum sizes.
pub open spec fn expanded_block(b: Block, min4: Option<u8>, min6: Option<u8>) -> Block {
    let m = if b.v6 {
        min6
    } else {
        min4
    };
    match m {
        Some(ms) => widened_block(b, ms as int),
        None => b,
    }
}

/// Replace every range smaller than the applicable minimum network
/// size by its ancestor of that size, in place.  The selected flags are
/// untouched.
pub fn expand_ranges(
    ranges: &mut Vec<RangeInterest<IpRange>>,
    min_ipv4_network_size: Option<u8>,
    min_ipv6_network_size: Option<u8>,
)
    requires
        forall|i: int| 0 <= i < old(ranges)@.len() ==> (#[trigger] old(ranges)@[i]).ok(),
    ensures
        final(ranges)@.len() == old(ranges)@.len(),
        forall|i: int|
            0 <= i < final(ranges)@.len() ==> {
                let e = #[trigger] final(ranges)@[i];
                e.ok() && e.sel() == old(ranges)@[i].sel() && e.blk() == expanded_block(
                    old(ranges)@[i].blk(),
                    min_ipv4_network_size,
                    min_ipv6_network_size,
                )
            },
{
    let ghost s0 = old(ranges)@;
    let n = ranges.len();
    let mut i: usize = 0;
    while i < n
        invariant
            i <= n == ranges@.len() == s0.len(),
            forall|j: int| 0 <= j < s0.len() ==> (#[trigger] s0[j]).ok(),
            forall|j: int| i <= j < s0.len() ==> #[trigger] ranges@[j] == s0[j],
            forall|j: int|
                0 <= j < i ==> {
                    let e = #[trigger] ranges@[j];
                    e.ok() && e.sel() == s0[j].sel() && e.blk() == expanded_block(
                        s0[j].blk(),
                        min_ipv4_network_size,
                        min_ipv6_network_size,
                    )
                },
        decreases n - i,
    {
        let v6 = ranges[i].range().is_ipv6();
        let m: Option<u8> = if v6 {
            min_ipv6_network_size
        } else {
            min_ipv4_network_size
        };
        if let Some(ms) = m {
            let plen = ranges[i].range().prefix_length();
            if plen > ms {
                proof {
                    ranges@[i as int].rng().lemma_inv();
                    crate::block::lemma_family_space();
                }
                let addr = ranges[i].range().host_address();
                let sel = ranges[i].is_selected();
                let width: u8 = if v6 {
                    128
                } else {
                    32
                };
                let addr2: u128 = if ms == 0 {
                    proof {
                        vstd::arithmetic::power2::lemma_pow2_pos(width as nat);
                        vstd::arithmetic::div_mod::lemma_small_mod(
                            addr as nat,
                            pow2(width as nat),
                        );
                    }
                    0
                } else {
                    let size = crate::std_range::pow2_u128(width - ms);
                    proof {
                        vstd::arithmetic::power2::lemma_pow2_pos((width - ms) as nat);
                        lemma_fundamental_div_mod(addr as int, size as int);
                        vstd::arithmetic::div_mod::lemma_mod_bound(addr as int, size as int);
                        let q = addr as int / size as int;
                        assert(q * size as int <= addr as int && q * size as int >= 0) by (
                        nonlinear_arith)
                            requires
                                size as int > 0 && addr as int == size as int * q + addr as int
                                    % size as int && 0 <= addr as int % size as int,
                        ;
                    }
                    let a2 = addr / size * size;
                    proof {
                        let q = addr as int / size as int;
                        assert(a2 as int == size as int * q) by (nonlinear_arith)
                            requires a2 as int == q * size as int,
                        ;
                        vstd::arithmetic::div_mod::lemma_mod_multiples_basic(q, size as int);
                        assert(a2 as int == addr as int - addr as int % size as int);
                    }
                    a2
                };
                proof {
                    assert(addr2 as int % pow2((width - ms) as nat) as int == 0);
                }
                let new_address: IpAddress = if v6 {
                    IpAddress::V6(addr2)
                } else {
                    IpAddress::V4(addr2 as u32)
                };
                let new_range = match IpRange::new(new_address, ms) {
                    Ok(r) => r,
                    Err(_) => {
                        proof {
                            assert(wf_block(
                                crate::std_range::address_block(new_address, ms as int),
                            ));
                        }
                        unreached()
                    },
                };
                crate::merge::set_slot(ranges, i, RangeInterest::new(new_range, sel));
                proof {
                    assert(ranges@[i as int].blk() == expanded_block(
                        s0[i as int].blk(),
                        min_ipv4_network_size,
                        min_ipv6_network_size,
                    ));
                }
            }
        }
        i += 1;
    }
}

} // verus!
