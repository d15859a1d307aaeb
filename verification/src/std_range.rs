//! The concrete range types: [`IpRange`] for either family, and the
//! family-specific [`Ipv4Range`] and [`Ipv6Range`].  Addresses are the
//! families' ordered integer values: 32 bits for IPv4, 128 for IPv6.

use vstd::prelude::*;

verus! {

use vstd::arithmetic::power2::pow2;
use vstd::arithmetic::div_mod::lemma_fundamental_div_mod;
use crate::block::{
    block_contains, family_width, has_parent, lemma_block_size_pos, lemma_contains_floor,
    lemma_contains_plen, lemma_even_half, lemma_family_space, lemma_parent_block,
    lemma_small_multiple, lemma_universal_contains, wf_block, Block,
};
use crate::range::Range;

/// An IP address of either family, as the family's integer value.
#[derive(Clone, Copy, Debug, PartialEq, Eq, Hash, Structural)]
pub enum IpAddress {
    V4(u32),
    V6(u128),
}

/// Whether the address is an IPv6 address.
pub open spec fn address_is_v6(a: IpAddress) -> bool {
    a is V6
}

/// The integer value of the address.
pub open spec fn address_value(a: IpAddress) -> int {
    match a {
        IpAddress::V4(x) => x as int,
        IpAddress::V6(x) => x as int,
    }
}

/// The block an address and a prefix length describe.
pub open spec fn address_block(a: IpAddress, plen: int) -> Block {
    Block { v6: address_is_v6(a), addr: address_value(a), plen }
}

/// The prefix length was invalid (e.g. 33 for an IPv4 address).
#[derive(Clone, Copy, Debug, PartialEq, Eq, Structural)]
pub struct InvalidPrefixLengthError {
    /// The rejected prefix length.
    pub prefix_length: u8,
    /// The largest prefix length the family allows.
    pub max_length: u8,
}

/// The host address was not the first address of the described range.
/// For example, constructing the range of `127.0.0.1/24` gives this
/// error because the first address of that range is `127.0.0.0`.
#[derive(Clone, Copy, Debug, PartialEq, Eq, Structural)]
pub struct InvalidHostAddressError {
    /// The rejected host address.
    pub host_address: IpAddress,
    /// The prefix length it was combined with.
    pub prefix_length: u8,
}

/// Why a range value could not be constructed.
#[derive(Clone, Copy, Debug, PartialEq, Eq, Structural)]
pub enum InvalidRangeError {
    InvalidPrefixLength(InvalidPrefixLengthError),
    InvalidHostAddress(InvalidHostAddressError),
}

/// Neither the host part nor the prefix length part of the text could
/// be read (e.g. a missing separator, or a non-numeric prefix length).
#[derive(Clone, Debug, PartialEq, Eq)]
pub struct UnparseableRangeError {
    /// The text that could not be parsed.
    pub text: String,
}

/// Why a range could not be parsed from text.
#[derive(Clone, Debug, PartialEq, Eq)]
pub enum RangeParseError {
    InvalidPrefixLength(InvalidPrefixLengthError),
    InvalidHostAddress(InvalidHostAddressError),
    UnparseableRange(UnparseableRangeError),
}

/// 2 to the power `k`.
pub(crate) fn pow2_u128(k: u8) -> (r: u128)
    requires
        k <= 127,
    ensures
        r as int == pow2(k as nat) as int,
{
    let mut r: u128 = 1;
    let mut i: u8 = 0;
    proof {
        vstd::arithmetic::power2::lemma2_to64();
    }
    while i < k
        invariant
            i <= k <= 127,
            r as int == pow2(i as nat) as int,
        decreases k - i,
    {
        proof {
            vstd::arithmetic::power2::lemma_pow2_adds(i as nat, 1);
            vstd::arithmetic::power2::lemma2_to64();
            vstd::arithmetic::power2::lemma_pow2_strictly_increases((i + 1) as nat, 128);
            lemma_family_space();
        }
        r = r * 2;
        i = i + 1;
    }
    r
}

/// Whether `addr` is the first address of the block `(addr, plen)` of
/// the family of width `width`.
fn aligned_u128(addr: u128, plen: u8, width: u8) -> (r: bool)
    requires
        width == 32 || width == 128,
        plen <= width,
        width == 32 ==> addr < 0x1_0000_0000,
    ensures
        r == (addr as int % pow2((width - plen) as nat) as int == 0),
{
    proof {
        lemma_family_space();
    }
    if plen == 0 {
        proof {
            vstd::arithmetic::power2::lemma_pow2_pos((width - plen) as nat);
            if addr as int % pow2(width as nat) as int == 0 {
                lemma_small_multiple(addr as int, pow2(width as nat) as int);
            }
            if addr == 0 {
                vstd::arithmetic::div_mod::lemma_mod_multiples_basic(
                    0,
                    pow2(width as nat) as int,
                );
            }
        }
        addr == 0
    } else {
        let size = pow2_u128(width - plen);
        proof {
            vstd::arithmetic::power2::lemma_pow2_pos((width - plen) as nat);
        }
        addr % size == 0
    }
}

/// Containment of the block `b` in the block `a`, of one family of
/// width `width`, as a computation over the integer values.
fn contains_u128(
    a_addr: u128,
    a_plen: u8,
    b_addr: u128,
    b_plen: u8,
    width: u8,
    Ghost(a): Ghost<Block>,
    Ghost(b): Ghost<Block>,
) -> (r: bool)
    requires
        width as int == family_width(a.v6),
        wf_block(a),
        wf_block(b),
        a.v6 == b.v6,
        a.addr == a_addr as int,
        a.plen == a_plen as int,
        b.addr == b_addr as int,
        b.plen == b_plen as int,
    ensures
        r == block_contains(a, b),
{
    if a_plen > b_plen {
        proof {
            lemma_block_size_pos(a);
            lemma_block_size_pos(b);
            if block_contains(a, b) {
                lemma_contains_plen(a, b);
            }
        }
        false
    } else if a_plen == 0 {
        proof {
            lemma_universal_contains(a, b);
        }
        true
    } else {
        proof {
            lemma_family_space();
        }
        let size = pow2_u128(width - a_plen);
        proof {
            vstd::arithmetic::power2::lemma_pow2_pos((width - a_plen) as nat);
            lemma_contains_floor(a, b);
            lemma_fundamental_div_mod(b_addr as int, size as int);
            vstd::arithmetic::div_mod::lemma_mod_bound(b_addr as int, size as int);
        }
        b_addr / size * size == a_addr
    }
}

/// Whether the block `(addr, plen)` is the low half of a valid larger
/// block, as a computation over the integer values.
fn half_of_parent_u128(addr: u128, plen: u8, width: u8, Ghost(b): Ghost<Block>) -> (r: bool)
    requires
        width as int == family_width(b.v6),
        wf_block(b),
        b.addr == addr as int,
        b.plen == plen as int,
        plen >= 1,
    ensures
        r == has_parent(b),
{
    proof {
        lemma_family_space();
    }
    let size = pow2_u128(width - plen);
    proof {
        vstd::arithmetic::power2::lemma_pow2_pos((width - plen) as nat);
        lemma_even_half(b);
        lemma_fundamental_div_mod(addr as int, size as int);
    }
    (addr / size) % 2 == 0
}

/// An `IpRange` represents a network range of either family.  If only
/// one family is in play, [`Ipv4Range`] or [`Ipv6Range`] is smaller.
///
/// An `IpRange` is constructed with [`IpRange::new`] or parsed from
/// text of the form `<address>/<prefix-length>`.
#[derive(Clone, Copy, Debug, PartialEq, Eq, Hash, Structural)]
pub struct IpRange {
    host_address: IpAddress,
    prefix_length: u8,
}

impl IpRange {
    /// Create a new `IpRange` value.  Succeeds exactly when the prefix
    /// length is within the family's width and the address is the first
    /// address of the described block.
    pub fn new(host_address: IpAddress, prefix_length: u8) -> (r: Result<
        IpRange,
        InvalidRangeError,
    >)
        ensures
            (r is Ok) == wf_block(address_block(host_address, prefix_length as int)),
            match r {
                Ok(rg) => rg.inv() && rg.block() == address_block(
                    host_address,
                    prefix_length as int,
                ),
                Err(InvalidRangeError::InvalidPrefixLength(e)) => prefix_length as int
                    > family_width(address_is_v6(host_address)) && e.prefix_length
                    == prefix_length && e.max_length as int == family_width(
                    address_is_v6(host_address),
                ),
                Err(InvalidRangeError::InvalidHostAddress(e)) => prefix_length as int
                    <= family_width(address_is_v6(host_address)) && !wf_block(
                    address_block(host_address, prefix_length as int),
                ) && e.host_address == host_address && e.prefix_length == prefix_length,
            },
    {
        proof {
            lemma_family_space();
        }
        let (addr_val, width): (u128, u8) = match host_address {
            IpAddress::V4(x) => (x as u128, 32),
            IpAddress::V6(x) => (x, 128),
        };
        if prefix_length > width {
            return Err(
                InvalidRangeError::InvalidPrefixLength(
                    InvalidPrefixLengthError { prefix_length, max_length: width },
                ),
            );
        }
        if !aligned_u128(addr_val, prefix_length, width) {
            return Err(
                InvalidRangeError::InvalidHostAddress(
                    InvalidHostAddressError { host_address, prefix_length },
                ),
            );
        }
        Ok(IpRange { host_address, prefix_length })
    }
}

impl Range for IpRange {
    closed spec fn block(&self) -> Block {
        address_block(self.host_address, self.prefix_length as int)
    }

    closed spec fn inv(&self) -> bool {
        wf_block(self.block())
    }

    proof fn lemma_inv(&self) {
    }

    fn host_address(&self) -> (a: u128) {
        match self.host_address {
            IpAddress::V4(x) => x as u128,
            IpAddress::V6(x) => x,
        }
    }

    fn prefix_length(&self) -> (p: u8) {
        self.prefix_length
    }

    fn is_ipv6(&self) -> (r: bool) {
        match self.host_address {
            IpAddress::V4(_) => false,
            IpAddress::V6(_) => true,
        }
    }

    fn contains(&self, other: &Self) -> (r: bool) {
        let a_addr = self.host_address();
        let b_addr = other.host_address();
        let width: u8 = if self.is_ipv6() {
            128
        } else {
            32
        };
        contains_u128(
            a_addr,
            self.prefix_length,
            b_addr,
            other.prefix_length,
            width,
            Ghost(self.block()),
            Ghost(other.block()),
        )
    }

    fn embiggen(&self) -> (r: Option<Self>) {
        if self.prefix_length == 0 {
            return None;
        }
        let addr_val = self.host_address();
        let width: u8 = if self.is_ipv6() {
            128
        } else {
            32
        };
        if half_of_parent_u128(addr_val, self.prefix_length, width, Ghost(self.block())) {
            proof {
                lemma_parent_block(self.block());
            }
            Some(IpRange { host_address: self.host_address, prefix_length: self.prefix_length - 1 })
        } else {
            None
        }
    }
}

/// An `Ipv4Range` represents an IPv4 network range.
#[derive(Clone, Copy, Debug, PartialEq, Eq, Hash, Structural)]
pub struct Ipv4Range {
    host_address: u32,
    prefix_length: u8,
}

impl Ipv4Range {
    /// Create a new `Ipv4Range` value.  Succeeds exactly when the
    /// prefix length is at most 32 and the address is the first address
    /// of the described block.
    pub fn new(host_address: u32, prefix_length: u8) -> (r: Result<Ipv4Range, InvalidRangeError>)
        ensures
            (r is Ok) == wf_block(
                Block { v6: false, addr: host_address as int, plen: prefix_length as int },
            ),
            match r {
                Ok(rg) => rg.inv() && rg.block() == (Block {
                    v6: false,
                    addr: host_address as int,
                    plen: prefix_length as int,
                }),
                Err(InvalidRangeError::InvalidPrefixLength(e)) => prefix_length > 32
                    && e.prefix_length == prefix_length && e.max_length == 32,
                Err(InvalidRangeError::InvalidHostAddress(e)) => prefix_length <= 32 && !wf_block(
                    Block { v6: false, addr: host_address as int, plen: prefix_length as int },
                ) && e.host_address == IpAddress::V4(host_address) && e.prefix_length
                    == prefix_length,
            },
    {
        proof {
            lemma_family_space();
        }
        if prefix_length > 32 {
            return Err(
                InvalidRangeError::InvalidPrefixLength(
                    InvalidPrefixLengthError { prefix_length, max_length: 32 },
                ),
            );
        }
        if !aligned_u128(host_address as u128, prefix_length, 32) {
            return Err(
                InvalidRangeError::InvalidHostAddress(
                    InvalidHostAddressError {
                        host_address: IpAddress::V4(host_address),
                        prefix_length,
                    },
                ),
            );
        }
        Ok(Ipv4Range { host_address, prefix_length })
    }
}

impl Range for Ipv4Range {
    closed spec fn block(&self) -> Block {
        Block { v6: false, addr: self.host_address as int, plen: self.prefix_length as int }
    }

    closed spec fn inv(&self) -> bool {
        wf_block(self.block())
    }

    proof fn lemma_inv(&self) {
    }

    fn host_address(&self) -> (a: u128) {
        self.host_address as u128
    }

    fn prefix_length(&self) -> (p: u8) {
        self.prefix_length
    }

    fn is_ipv6(&self) -> (r: bool) {
        false
    }

    fn contains(&self, other: &Self) -> (r: bool) {
        contains_u128(
            self.host_address as u128,
            self.prefix_length,
            other.host_address as u128,
            other.prefix_length,
            32,
            Ghost(self.block()),
            Ghost(other.block()),
        )
    }

    fn embiggen(&self) -> (r: Option<Self>) {
        if self.prefix_length == 0 {
            return None;
        }
        if half_of_parent_u128(
            self.host_address as u128,
            self.prefix_length,
            32,
            Ghost(self.block()),
        ) {
            proof {
                lemma_parent_block(self.block());
            }
            Some(
                Ipv4Range { host_address: self.host_address, prefix_length: self.prefix_length - 1 },
            )
        } else {
            None
        }
    }
}

/// An `Ipv6Range` represents an IPv6 network range.
#[derive(Clone, Copy, Debug, PartialEq, Eq, Hash, Structural)]
pub struct Ipv6Range {
    host_address: u128,
    prefix_length: u8,
}

impl Ipv6Range {
    /// Create a new `Ipv6Range` value.  Succeeds exactly when the
    /// prefix length is at most 128 and the address is the first
    /// address of the described block.
    pub fn new(host_address: u128, prefix_length: u8) -> (r: Result<Ipv6Range, InvalidRangeError>)
        ensures
            (r is Ok) == wf_block(
                Block { v6: true, addr: host_address as int, plen: prefix_length as int },
            ),
            match r {
                Ok(rg) => rg.inv() && rg.block() == (Block {
                    v6: true,
                    addr: host_address as int,
                    plen: prefix_length as int,
                }),
                Err(InvalidRangeError::InvalidPrefixLength(e)) => prefix_length > 128
                    && e.prefix_length == prefix_length && e.max_length == 128,
                Err(InvalidRangeError::InvalidHostAddress(e)) => prefix_length <= 128 && !wf_block(
                    Block { v6: true, addr: host_address as int, plen: prefix_length as int },
                ) && e.host_address == IpAddress::V6(host_address) && e.prefix_length
                    == prefix_length,
            },
    {
        proof {
            lemma_family_space();
        }
        if prefix_length > 128 {
            return Err(
                InvalidRangeError::InvalidPrefixLength(
                    InvalidPrefixLengthError { prefix_length, max_length: 128 },
                ),
            );
        }
        if !aligned_u128(host_address, prefix_length, 128) {
            return Err(
                InvalidRangeError::InvalidHostAddress(
                    InvalidHostAddressError {
                        host_address: IpAddress::V6(host_address),
                        prefix_length,
                    },
                ),
            );
        }
        Ok(Ipv6Range { host_address, prefix_length })
    }
}

impl Range for Ipv6Range {
    closed spec fn block(&self) -> Block {
        Block { v6: true, addr: self.host_address as int, plen: self.prefix_length as int }
    }

    closed spec fn inv(&self) -> bool {
        wf_block(self.block())
    }

    proof fn lemma_inv(&self) {
    }

    fn host_address(&self) -> (a: u128) {
        self.host_address
    }

    fn prefix_length(&self) -> (p: u8) {
        self.prefix_length
    }

    fn is_ipv6(&self) -> (r: bool) {
        true
    }

    fn contains(&self, other: &Self) -> (r: bool) {
        contains_u128(
            self.host_address,
            self.prefix_length,
            other.host_address,
            other.prefix_length,
            128,
            Ghost(self.block()),
            Ghost(other.block()),
        )
    }

    fn embiggen(&self) -> (r: Option<Self>) {
        if self.prefix_length == 0 {
            return None;
        }
        if half_of_parent_u128(self.host_address, self.prefix_length, 128, Ghost(self.block())) {
            proof {
                lemma_parent_block(self.block());
            }
            Some(
                Ipv6Range { host_address: self.host_address, prefix_length: self.prefix_length - 1 },
            )
        } else {
            None
        }
    }
}

// ---------------------------------------------------------------------
// Text: the range format is `<address>/<prefix-length>`.  An IPv4
// address is four decimal octets separated by dots, without leading
// zeros; an IPv6 address is up to eight hexadecimal groups separated by
// colons, with at most one `::` standing for a run of zero groups.  The
// grammar is stated by splitting the text at the separators.
// ---------------------------------------------------------------------
/// The pieces of `s` between occurrences of `sep`; one more piece than
/// separators, empty pieces included.
pub open spec fn split_on(s: Seq<char>, sep: char) -> Seq<Seq<char>>
    decreases s.len(),
{
    if s.len() == 0 {
        seq![Seq::<char>::empty()]
    } else if s[0] == sep {
        seq![Seq::<char>::empty()] + split_on(s.drop_first(), sep)
    } else {
        let rest = split_on(s.drop_first(), sep);
        seq![seq![s[0]] + rest[0]] + rest.drop_first()
    }
}

/// A split always has at least one piece.
proof fn lemma_split_on_len(s: Seq<char>, sep: char)
    ensures
        split_on(s, sep).len() >= 1,
    decreases s.len(),
{
    if s.len() != 0 {
        lemma_split_on_len(s.drop_first(), sep);
    }
}

/// Splitting at the first separator: the piece before it, then the
/// split of what follows it.
proof fn lemma_split_on_first(s: Seq<char>, sep: char, i: int)
    requires
        0 <= i < s.len(),
        s[i] == sep,
        forall|j: int| 0 <= j < i ==> s[j] != sep,
    ensures
        split_on(s, sep) == seq![s.subrange(0, i)] + split_on(
            s.subrange(i + 1, s.len() as int),
            sep,
        ),
    decreases s.len(),
{
    lemma_split_on_len(s.drop_first(), sep);
    if i == 0 {
        assert(s.subrange(0, 0) =~= Seq::<char>::empty());
        assert(s.subrange(1, s.len() as int) =~= s.drop_first());
    } else {
        let t = s.drop_first();
        lemma_split_on_first(t, sep, i - 1);
        assert(t.subrange(0, i - 1) =~= s.subrange(1, i));
        assert(t.subrange(i, t.len() as int) =~= s.subrange(i + 1, s.len() as int));
        assert(seq![s[0]] + s.subrange(1, i) =~= s.subrange(0, i));
        assert(split_on(s, sep) =~~= seq![s.subrange(0, i)] + split_on(
            s.subrange(i + 1, s.len() as int),
            sep,
        ));
    }
}

/// A text without the separator splits into itself alone.
proof fn lemma_split_on_none(s: Seq<char>, sep: char)
    requires
        forall|j: int| 0 <= j < s.len() ==> s[j] != sep,
    ensures
        split_on(s, sep) == seq![s],
    decreases s.len(),
{
    if s.len() == 0 {
        assert(split_on(s, sep) =~~= seq![s]);
    } else {
        lemma_split_on_none(s.drop_first(), sep);
        assert(seq![s[0]] + s.drop_first() =~= s);
        assert(split_on(s, sep) =~~= seq![s]);
    }
}

/// The boundaries of the pieces of `s` between occurrences of `sep`:
/// the exec counterpart of [`split_on`].
fn split_bounds(s: &str, sep: char) -> (r: Vec<(usize, usize)>)
    ensures
        r@.len() == split_on(s@, sep).len(),
        r@.len() >= 1,
        forall|i: int|
            0 <= i < r@.len() ==> {
                let (from, to) = #[trigger] r@[i];
                from <= to <= s@.len() && s@.subrange(from as int, to as int) == split_on(
                    s@,
                    sep,
                )[i]
            },
{
    let n = s.unicode_len();
    let mut r: Vec<(usize, usize)> = Vec::new();
    let mut start: usize = 0;
    let mut i: usize = 0;
    proof {
        assert(s@.subrange(0, n as int) =~= s@);
        assert(bounds_parts(r@, s@) =~~= Seq::<Seq<char>>::empty());
        assert(split_on(s@, sep) =~~= bounds_parts(r@, s@) + split_on(
            s@.subrange(0, n as int),
            sep,
        ));
    }
    while i < n
        invariant
            start <= i <= n == s@.len(),
            forall|j: int| start <= j < i ==> s@[j] != sep,
            split_on(s@, sep) =~~= bounds_parts(r@, s@) + split_on(
                s@.subrange(start as int, n as int),
                sep,
            ),
            forall|k: int|
                0 <= k < r@.len() ==> {
                    let (from, to) = #[trigger] r@[k];
                    from <= to <= s@.len() && s@.subrange(from as int, to as int) == bounds_parts(
                        r@,
                        s@,
                    )[k]
                },
        decreases n - i,
    {
        if s.get_char(i) == sep {
            let ghost old_r = r@;
            let ghost tail = s@.subrange(start as int, n as int);
            r.push((start, i));
            proof {
                assert forall|j: int| 0 <= j < i - start implies tail[j] != sep by {
                    assert(tail[j] == s@[start + j]);
                }
                assert(tail[i - start] == sep);
                lemma_split_on_first(tail, sep, i - start);
                assert(tail.subrange(0, i - start) =~= s@.subrange(start as int, i as int));
                assert(tail.subrange(i - start + 1, tail.len() as int) =~= s@.subrange(
                    i + 1,
                    n as int,
                ));
                assert(bounds_parts(r@, s@) =~~= bounds_parts(old_r, s@) + seq![
                    s@.subrange(start as int, i as int)
                ]);
            }
            start = i + 1;
        }
        i += 1;
    }
    let ghost old_r = r@;
    r.push((start, n));
    proof {
        let tail = s@.subrange(start as int, n as int);
        assert forall|j: int| 0 <= j < tail.len() implies tail[j] != sep by {
            assert(tail[j] == s@[start + j]);
        }
        lemma_split_on_none(tail, sep);
        assert(bounds_parts(r@, s@) =~~= bounds_parts(old_r, s@) + seq![tail]);
        assert(split_on(s@, sep) =~~= bounds_parts(r@, s@));
        assert forall|k: int| 0 <= k < r@.len() implies {
            let (from, to) = #[trigger] r@[k];
            from <= to <= s@.len() && s@.subrange(from as int, to as int) == split_on(s@, sep)[k]
        } by {
            assert(bounds_parts(r@, s@)[k] == s@.subrange(r@[k].0 as int, r@[k].1 as int));
        }
    }
    r
}

/// The pieces a boundary list describes.
pub open spec fn bounds_parts(r: Seq<(usize, usize)>, s: Seq<char>) -> Seq<Seq<char>> {
    Seq::new(r.len(), |k: int| s.subrange(r[k].0 as int, r[k].1 as int))
}

/// A decimal digit.
pub open spec fn is_dec_digit(c: char) -> bool {
    48 <= c as u32 <= 57
}

/// The value of a decimal digit.
pub open spec fn dec_digit_val(c: char) -> int {
    c as u32 - 48
}

/// All characters are decimal digits.
pub open spec fn all_dec_digits(s: Seq<char>) -> bool {
    forall|i: int| 0 <= i < s.len() ==> is_dec_digit(#[trigger] s[i])
}

/// The numeric value of a decimal digit string.
pub open spec fn dec_value(s: Seq<char>) -> int
    decreases s.len(),
{
    if s.len() == 0 {
        0
    } else {
        dec_value(s.drop_last()) * 10 + dec_digit_val(s.last())
    }
}

/// A hexadecimal digit.
pub open spec fn is_hex_digit(c: char) -> bool {
    let u = c as u32;
    (48 <= u <= 57) || (97 <= u <= 102) || (65 <= u <= 70)
}

/// The value of a hexadecimal digit.
pub open spec fn hex_digit_val(c: char) -> int {
    let u = c as u32;
    if 48 <= u <= 57 {
        u - 48
    } else if 97 <= u <= 102 {
        u - 87
    } else {
        u - 55
    }
}

/// The numeric value of a hexadecimal digit string.
pub open spec fn hex_value(s: Seq<char>) -> int
    decreases s.len(),
{
    if s.len() == 0 {
        0
    } else {
        hex_value(s.drop_last()) * 16 + hex_digit_val(s.last())
    }
}

/// The text of one IPv4 octet: decimal digits without a leading zero,
/// up to 255.
pub open spec fn octet_text(s: Seq<char>) -> bool {
    &&& 1 <= s.len()
    &&& all_dec_digits(s)
    &&& dec_value(s) <= 255
    &&& (s.len() > 1 ==> s[0] != '0')
}

/// The text of a prefix length: decimal digits, value below 256.
pub open spec fn prefix_length_text(s: Seq<char>) -> bool {
    &&& 1 <= s.len()
    &&& all_dec_digits(s)
    &&& dec_value(s) <= 255
}

/// The text of one IPv6 group: one to four hexadecimal digits.
pub open spec fn h16_text(s: Seq<char>) -> bool {
    &&& 1 <= s.len() <= 4
    &&& forall|i: int| 0 <= i < s.len() ==> is_hex_digit(#[trigger] s[i])
}

/// The value of a digit string never goes down as it extends.
proof fn lemma_dec_value_grow(s: Seq<char>, k: int)
    requires
        0 <= k <= s.len(),
        all_dec_digits(s),
    ensures
        dec_value(s) >= dec_value(s.take(k)),
        dec_value(s.take(k)) >= 0,
    decreases s.len() - k, s.len(), 1int,
{
    if k == s.len() {
        assert(s.take(k) =~= s);
        lemma_dec_value_nonneg(s);
    } else {
        lemma_dec_value_grow(s, k + 1);
        assert(s.take(k + 1).drop_last() =~= s.take(k));
        assert(s.take(k + 1).last() == s[k]);
        lemma_dec_value_nonneg(s.take(k));
    }
}

proof fn lemma_dec_value_nonneg(s: Seq<char>)
    requires
        all_dec_digits(s),
    ensures
        dec_value(s) >= 0,
    decreases s.len(),
{
    if s.len() > 0 {
        assert(all_dec_digits(s.drop_last())) by {
            assert(forall|i: int| 0 <= i < s.len() - 1 ==> s.drop_last()[i] == s[i]);
        }
        lemma_dec_value_nonneg(s.drop_last());
    }
}

/// The value of a hexadecimal string of up to four digits fits a group.
proof fn lemma_hex_value_bound(s: Seq<char>)
    requires
        forall|i: int| 0 <= i < s.len() ==> is_hex_digit(#[trigger] s[i]),
        s.len() <= 4,
    ensures
        0 <= hex_value(s) < 0x10000,
        s.len() <= 3 ==> hex_value(s) < 0x1000,
        s.len() <= 2 ==> hex_value(s) < 0x100,
        s.len() <= 1 ==> hex_value(s) < 0x10,
    decreases s.len(),
{
    if s.len() > 0 {
        assert(forall|i: int| 0 <= i < s.len() - 1 ==> s.drop_last()[i] == s[i]);
        lemma_hex_value_bound(s.drop_last());
    }
}

/// Parse a decimal number of at most 255 out of `s[from..to]`.
fn parse_dec255(s: &str, from: usize, to: usize) -> (r: Option<u8>)
    requires
        from <= to <= s@.len(),
    ensures
        ({
            let t = s@.subrange(from as int, to as int);
            match r {
                Some(v) => prefix_length_text(t) && dec_value(t) == v as int,
                None => !prefix_length_text(t),
            }
        }),
{
    let ghost t = s@.subrange(from as int, to as int);
    if from == to {
        return None;
    }
    let mut val: u32 = 0;
    let mut i = from;
    proof {
        assert(s@.subrange(from as int, from as int) =~= Seq::<char>::empty());
    }
    while i < to
        invariant
            from <= i <= to <= s@.len(),
            t == s@.subrange(from as int, to as int),
            all_dec_digits(s@.subrange(from as int, i as int)),
            val as int == dec_value(s@.subrange(from as int, i as int)),
            val <= 255,
        decreases to - i,
    {
        let c = s.get_char(i);
        let u = c as u32;
        if u < 48 || u > 57 {
            proof {
                assert(t[i - from] == s@[i as int]);
            }
            return None;
        }
        proof {
            let t1 = s@.subrange(from as int, (i + 1) as int);
            assert(t1.drop_last() =~= s@.subrange(from as int, i as int));
            assert(t1.last() == s@[i as int]);
            assert forall|j: int| 0 <= j < t1.len() implies is_dec_digit(#[trigger] t1[j]) by {
                if j < i - from {
                    assert(t1[j] == s@.subrange(from as int, i as int)[j]);
                }
            }
        }
        val = val * 10 + (u - 48);
        if val > 255 {
            proof {
                if prefix_length_text(t) {
                    assert(s@.subrange(from as int, (i + 1) as int) =~= t.take(i + 1 - from));
                    lemma_dec_value_grow(t, i + 1 - from);
                    assert(false);
                }
            }
            return None;
        }
        i += 1;
    }
    proof {
        assert(t =~= s@.subrange(from as int, i as int));
    }
    Some(val as u8)
}

/// Parse one IPv4 octet out of `s[from..to]`.
fn parse_octet(s: &str, from: usize, to: usize) -> (r: Option<u8>)
    requires
        from <= to <= s@.len(),
    ensures
        ({
            let t = s@.subrange(from as int, to as int);
            match r {
                Some(v) => octet_text(t) && dec_value(t) == v as int,
                None => !octet_text(t),
            }
        }),
{
    let ghost t = s@.subrange(from as int, to as int);
    if to - from > 1 {
        if s.get_char(from) == '0' {
            proof {
                assert(t[0] == s@[from as int]);
            }
            return None;
        }
    }
    proof {
        if from < to {
            assert(t[0] == s@[from as int]);
        }
    }
    parse_dec255(s, from, to)
}

/// Parse one IPv6 group out of `s[from..to]`.
fn parse_h16(s: &str, from: usize, to: usize) -> (r: Option<u16>)
    requires
        from <= to <= s@.len(),
    ensures
        ({
            let t = s@.subrange(from as int, to as int);
            match r {
                Some(v) => h16_text(t) && hex_value(t) == v as int,
                None => !h16_text(t),
            }
        }),
{
    let ghost t = s@.subrange(from as int, to as int);
    if from == to || to - from > 4 {
        return None;
    }
    let mut val: u32 = 0;
    let mut i = from;
    proof {
        assert(s@.subrange(from as int, from as int) =~= Seq::<char>::empty());
    }
    while i < to
        invariant
            from <= i <= to <= s@.len(),
            to - from <= 4,
            t == s@.subrange(from as int, to as int),
            forall|j: int|
                0 <= j < i - from ==> is_hex_digit(
                    #[trigger] s@.subrange(from as int, i as int)[j],
                ),
            val as int == hex_value(s@.subrange(from as int, i as int)),
            val < 0x10000,
        decreases to - i,
    {
        let c = s.get_char(i);
        let u = c as u32;
        let d: u32 = if 48 <= u && u <= 57 {
            u - 48
        } else if 97 <= u && u <= 102 {
            u - 87
        } else if 65 <= u && u <= 70 {
            u - 55
        } else {
            proof {
                assert(t[i - from] == s@[i as int]);
            }
            return None;
        };
        proof {
            let t0 = s@.subrange(from as int, i as int);
            let t1 = s@.subrange(from as int, (i + 1) as int);
            assert(t1.drop_last() =~= t0);
            assert(t1.last() == s@[i as int]);
            assert forall|j: int| 0 <= j < t1.len() implies is_hex_digit(#[trigger] t1[j]) by {
                if j < i - from {
                    assert(t1[j] == t0[j]);
                }
            }
            lemma_hex_value_bound(t1);
        }
        val = val * 16 + d;
        i += 1;
    }
    proof {
        assert(t =~= s@.subrange(from as int, i as int));
    }
    Some(val as u16)
}

/// The text of an IPv4 address: four octets separated by dots.
pub open spec fn ipv4_text(s: Seq<char>) -> bool {
    let ps = split_on(s, '.');
    &&& ps.len() == 4
    &&& octet_text(ps[0])
    &&& octet_text(ps[1])
    &&& octet_text(ps[2])
    &&& octet_text(ps[3])
}

/// The value of an IPv4 address text.
pub open spec fn ipv4_value(s: Seq<char>) -> int {
    let ps = split_on(s, '.');
    ((dec_value(ps[0]) * 0x100 + dec_value(ps[1])) * 0x100 + dec_value(ps[2])) * 0x100
        + dec_value(ps[3])
}

/// Parse an IPv4 address.
fn parse_ipv4_addr(s: &str) -> (r: Option<u32>)
    ensures
        match r {
            Some(v) => ipv4_text(s@) && v as int == ipv4_value(s@),
            None => !ipv4_text(s@),
        },
{
    let parts = split_bounds(s, '.');
    if parts.len() != 4 {
        return None;
    }
    let (f0, t0) = (parts[0].0, parts[0].1);
    let (f1, t1) = (parts[1].0, parts[1].1);
    let (f2, t2) = (parts[2].0, parts[2].1);
    let (f3, t3) = (parts[3].0, parts[3].1);
    let o0 = match parse_octet(s, f0, t0) {
        Some(v) => v,
        None => {
            return None;
        },
    };
    let o1 = match parse_octet(s, f1, t1) {
        Some(v) => v,
        None => {
            return None;
        },
    };
    let o2 = match parse_octet(s, f2, t2) {
        Some(v) => v,
        None => {
            return None;
        },
    };
    let o3 = match parse_octet(s, f3, t3) {
        Some(v) => v,
        None => {
            return None;
        },
    };
    proof {
        lemma_dec_value_nonneg(split_on(s@, '.')[0]);
        lemma_dec_value_nonneg(split_on(s@, '.')[1]);
        lemma_dec_value_nonneg(split_on(s@, '.')[2]);
        lemma_dec_value_nonneg(split_on(s@, '.')[3]);
    }
    Some(((o0 as u32 * 0x100 + o1 as u32) * 0x100 + o2 as u32) * 0x100 + o3 as u32)
}

// ---- IPv6 text ----
/// The final piece of an IPv6 address: a hexadecimal group, or — the
/// embedded-IPv4 form — a dotted quad standing for the last two groups.
pub open spec fn tail_text(p: Seq<char>) -> bool {
    h16_text(p) || ipv4_text(p)
}

/// How many of the eight groups the final piece provides.
pub open spec fn tail_width(p: Seq<char>) -> int {
    if ipv4_text(p) {
        2
    } else {
        1
    }
}

/// The group values the final piece provides.
pub open spec fn tail_values(p: Seq<char>) -> Seq<int> {
    if ipv4_text(p) {
        seq![ipv4_value(p) / 0x10000, ipv4_value(p) % 0x10000]
    } else {
        seq![hex_value(p)]
    }
}

/// Eight groups, no `::`.
pub open spec fn ipv6_all_groups(ps: Seq<Seq<char>>) -> bool {
    &&& ps.len() >= 1
    &&& forall|i: int| 0 <= i < ps.len() - 1 ==> h16_text(#[trigger] ps[i])
    &&& tail_text(ps[ps.len() - 1])
    &&& ps.len() - 1 + tail_width(ps[ps.len() - 1]) == 8
}

/// The bare `::`.
pub open spec fn ipv6_unspecified(ps: Seq<Seq<char>>) -> bool {
    ps.len() == 3 && ps[0].len() == 0 && ps[1].len() == 0 && ps[2].len() == 0
}

/// A `::` between two group runs: one empty piece, strictly inside.
pub open spec fn ipv6_gap_at(ps: Seq<Seq<char>>, k: int) -> bool {
    &&& 3 <= ps.len()
    &&& 1 <= k < ps.len() - 1
    &&& ps[k].len() == 0
    &&& forall|i: int| 0 <= i < ps.len() - 1 && i != k ==> h16_text(#[trigger] ps[i])
    &&& tail_text(ps[ps.len() - 1])
    &&& ps.len() - 2 + tail_width(ps[ps.len() - 1]) <= 7
}

/// A leading `::`: two empty pieces in front.
pub open spec fn ipv6_prefix_gap(ps: Seq<Seq<char>>) -> bool {
    &&& 3 <= ps.len()
    &&& ps[0].len() == 0
    &&& ps[1].len() == 0
    &&& forall|i: int| 2 <= i < ps.len() - 1 ==> h16_text(#[trigger] ps[i])
    &&& tail_text(ps[ps.len() - 1])
    &&& ps.len() - 3 + tail_width(ps[ps.len() - 1]) <= 7
}

/// A trailing `::`: two empty pieces at the end.
pub open spec fn ipv6_suffix_gap(ps: Seq<Seq<char>>) -> bool {
    &&& 3 <= ps.len() <= 9
    &&& ps[ps.len() - 1].len() == 0
    &&& ps[ps.len() - 2].len() == 0
    &&& forall|i: int| 0 <= i < ps.len() - 2 ==> h16_text(#[trigger] ps[i])
}

/// The text of an IPv6 address: up to eight hexadecimal groups
/// separated by colons, with at most one `::` standing for the missing
/// zero groups, and optionally the last two groups given as an embedded
/// IPv4 dotted quad.
pub open spec fn ipv6_text(s: Seq<char>) -> bool {
    let ps = split_on(s, ':');
    ||| ipv6_all_groups(ps)
    ||| ipv6_unspecified(ps)
    ||| (exists|k: int| ipv6_gap_at(ps, k))
    ||| ipv6_prefix_gap(ps)
    ||| ipv6_suffix_gap(ps)
}

/// A run of zero group values.
pub open spec fn seq_zeros(n: int) -> Seq<int> {
    Seq::new(n as nat, |i: int| 0)
}

/// The group values of the pieces `ps[from..to]`.
pub open spec fn h16_values(ps: Seq<Seq<char>>, from: int, to: int) -> Seq<int> {
    Seq::new((to - from) as nat, |i: int| hex_value(ps[from + i]))
}

/// The eight group values an IPv6 address text denotes.
pub open spec fn ipv6_group_values(ps: Seq<Seq<char>>) -> Seq<int> {
    let tail = tail_values(ps[ps.len() - 1]);
    let w = tail_width(ps[ps.len() - 1]);
    if ipv6_all_groups(ps) {
        h16_values(ps, 0, ps.len() - 1) + tail
    } else if ipv6_unspecified(ps) {
        seq_zeros(8)
    } else if exists|k: int| ipv6_gap_at(ps, k) {
        let k = choose|k: int| ipv6_gap_at(ps, k);
        h16_values(ps, 0, k) + seq_zeros(10 - ps.len() - w) + h16_values(
            ps,
            k + 1,
            ps.len() - 1,
        ) + tail
    } else if ipv6_prefix_gap(ps) {
        seq_zeros(11 - ps.len() - w) + h16_values(ps, 2, ps.len() - 1) + tail
    } else {
        h16_values(ps, 0, ps.len() - 2) + seq_zeros(10 - ps.len())
    }
}

/// The value of a group value list, most significant group first.
pub open spec fn groups_value(gs: Seq<int>) -> int
    decreases gs.len(),
{
    if gs.len() == 0 {
        0
    } else {
        groups_value(gs.drop_last()) * 0x10000 + gs.last()
    }
}

/// The value of an IPv6 address text.
pub open spec fn ipv6_value(s: Seq<char>) -> int {
    groups_value(ipv6_group_values(split_on(s, ':')))
}

/// Group value lists of at most eight groups fit the address space.
proof fn lemma_groups_value_bound(gs: Seq<int>)
    requires
        gs.len() <= 8,
        forall|i: int| 0 <= i < gs.len() ==> 0 <= #[trigger] gs[i] < 0x10000,
    ensures
        0 <= groups_value(gs) < pow2((16 * gs.len()) as nat) as int,
    decreases gs.len(),
{
    vstd::arithmetic::power2::lemma2_to64();
    if gs.len() > 0 {
        let d = gs.drop_last();
        assert(forall|i: int| 0 <= i < d.len() ==> d[i] == gs[i]);
        lemma_groups_value_bound(d);
        vstd::arithmetic::power2::lemma_pow2_adds((16 * d.len()) as nat, 16);
        let b = pow2((16 * d.len()) as nat) as int;
        assert(groups_value(d) * 0x10000 + gs.last() < b * 0x10000) by (nonlinear_arith)
            requires 0 <= groups_value(d) < b && gs.last() < 0x10000,
        ;
        assert(groups_value(d) * 0x10000 >= 0) by (nonlinear_arith)
            requires groups_value(d) >= 0,
        ;
    }
}

/// Whether `em` lists exactly the empty pieces among the first `n`.
pub open spec fn empties_listed(em: Seq<usize>, ps: Seq<Seq<char>>, n: int) -> bool {
    &&& forall|t: int, u: int| 0 <= t < u < em.len() ==> em[t] < em[u]
    &&& forall|t: int| 0 <= t < em.len() ==> (#[trigger] em[t]) < n
    &&& forall|j: int|
        0 <= j < n ==> ((#[trigger] ps[j]).len() == 0 <==> exists|t: int|
            0 <= t < em.len() && em[t] == j)
}

/// Append the group values of the pieces `ps[a..b]` to `gv`; false when
/// one of them is not a valid group.
fn push_group_values(
    s: &str,
    parts: &Vec<(usize, usize)>,
    a: usize,
    b: usize,
    gv: &mut Vec<u16>,
    Ghost(ps): Ghost<Seq<Seq<char>>>,
) -> (ok: bool)
    requires
        a <= b <= parts@.len() == ps.len(),
        forall|i: int|
            0 <= i < parts@.len() ==> {
                let (from, to) = #[trigger] parts@[i];
                from <= to <= s@.len() && s@.subrange(from as int, to as int) == ps[i]
            },
    ensures
        ok ==> final(gv)@.map_values(|x: u16| x as int) == old(gv)@.map_values(|x: u16| x as int)
            + h16_values(ps, a as int, b as int) && (forall|i: int|
            a <= i < b ==> h16_text(#[trigger] ps[i])),
        !ok ==> exists|i: int| a <= i < b && !h16_text(#[trigger] ps[i]),
{
    let ghost gv0 = gv@;
    let mut i = a;
    while i < b
        invariant
            a <= i <= b <= parts@.len() == ps.len(),
            forall|j: int|
                0 <= j < parts@.len() ==> {
                    let (from, to) = #[trigger] parts@[j];
                    from <= to <= s@.len() && s@.subrange(from as int, to as int) == ps[j]
                },
            gv@.map_values(|x: u16| x as int) =~= gv0.map_values(|x: u16| x as int)
                + h16_values(ps, a as int, i as int),
            forall|j: int| a <= j < i ==> h16_text(#[trigger] ps[j]),
        decreases b - i,
    {
        let (from, to) = parts[i];
        let ghost gprev = gv@;
        match parse_h16(s, from, to) {
            Some(v) => {
                gv.push(v);
                proof {
                    assert(gv@ == gprev.push(v));
                    assert(s@.subrange(parts@[i as int].0 as int, parts@[i as int].1 as int)
                        == ps[i as int]);
                    let m2 = gv@.map_values(|x: u16| x as int);
                    let m0 = gv0.map_values(|x: u16| x as int);
                    let mp = gprev.map_values(|x: u16| x as int);
                    let hv = h16_values(ps, a as int, (i + 1) as int);
                    let hp = h16_values(ps, a as int, i as int);
                    assert(mp == m0 + hp);
                    assert(mp.len() == m0.len() + (i - a));
                    assert forall|j: int| 0 <= j < m2.len() implies #[trigger] m2[j] == (m0
                        + hv)[j] by {
                        if j < gprev.len() {
                            assert(gv@[j] == gprev[j]);
                            assert(m2[j] == gprev[j] as int);
                            assert(mp[j] == gprev[j] as int);
                            if j < m0.len() {
                                assert((m0 + hv)[j] == m0[j]);
                                assert(mp[j] == m0[j]);
                            } else {
                                assert((m0 + hv)[j] == hv[j - m0.len()]);
                                assert(hv[j - m0.len()] == hex_value(ps[a + (j - m0.len())]));
                                assert(hp[j - m0.len()] == hex_value(ps[a + (j - m0.len())]));
                                assert(mp[j] == hp[j - m0.len()]);
                            }
                        } else {
                            assert(j == gprev.len());
                            assert(gv@[j] == v);
                            assert(m2[j] == v as int);
                            assert((m0 + hv)[j] == hv[j - m0.len()]);
                            assert(j - m0.len() == i - a);
                            assert(hv[i - a] == hex_value(ps[a + (i - a)]));
                        }
                    }
                    assert(m2 =~= m0 + hv);
                }
            },
            None => {
                proof {
                    assert(!h16_text(ps[i as int]));
                }
                return false;
            },
        }
        i += 1;
    }
    true
}

/// Append `n` zero groups to `gv`.
fn push_zero_values(gv: &mut Vec<u16>, n: usize)
    ensures
        final(gv)@.map_values(|x: u16| x as int) == old(gv)@.map_values(|x: u16| x as int)
            + seq_zeros(n as int),
{
    let ghost gv0 = old(gv)@;
    let mut i: usize = 0;
    while i < n
        invariant
            i <= n,
            gv@.map_values(|x: u16| x as int) =~= gv0.map_values(|x: u16| x as int) + seq_zeros(
                i as int,
            ),
        decreases n - i,
    {
        let ghost gprev = gv@;
        gv.push(0);
        proof {
            assert(gv@ == gprev.push(0u16));
            let m2 = gv@.map_values(|x: u16| x as int);
            let m0 = gv0.map_values(|x: u16| x as int);
            let mp = gprev.map_values(|x: u16| x as int);
            assert(mp == m0 + seq_zeros(i as int));
            assert(mp.len() == m0.len() + i);
            assert forall|j: int| 0 <= j < m2.len() implies #[trigger] m2[j] == (m0 + seq_zeros(
                (i + 1) as int,
            ))[j] by {
                if j < gprev.len() {
                    assert(gv@[j] == gprev[j]);
                    assert(m2[j] == gprev[j] as int);
                    assert(mp[j] == gprev[j] as int);
                    if j < m0.len() {
                        assert((m0 + seq_zeros((i + 1) as int))[j] == m0[j]);
                        assert(mp[j] == m0[j]);
                    } else {
                        assert((m0 + seq_zeros((i + 1) as int))[j] == seq_zeros(
                            (i + 1) as int,
                        )[j - m0.len()]);
                        assert(mp[j] == seq_zeros(i as int)[j - m0.len()]);
                    }
                } else {
                    assert(j == gprev.len());
                    assert(gv@[j] == 0u16);
                    assert(m2[j] == 0);
                    assert((m0 + seq_zeros((i + 1) as int))[j] == seq_zeros(
                        (i + 1) as int,
                    )[j - m0.len()]);
                }
            }
            assert(m2 =~= m0 + seq_zeros((i + 1) as int));
        }
        i += 1;
    }
    proof {
        assert(gv@.map_values(|x: u16| x as int) =~= gv0.map_values(|x: u16| x as int)
            + seq_zeros(n as int));
    }
}

/// Combine eight group values into an address value.
fn fold_groups(gv: &Vec<u16>) -> (v: u128)
    requires
        gv@.len() == 8,
    ensures
        v as int == groups_value(gv@.map_values(|x: u16| x as int)),
{
    let gs = Ghost(gv@.map_values(|x: u16| x as int));
    let mut v: u128 = 0;
    let mut i: usize = 0;
    proof {
        assert(gs@.take(0) =~= Seq::<int>::empty());
    }
    while i < 8
        invariant
            i <= 8,
            gv@.len() == 8,
            gs@ == gv@.map_values(|x: u16| x as int),
            v as int == groups_value(gs@.take(i as int)),
        decreases 8 - i,
    {
        proof {
            let t = gs@.take(i as int);
            let t1 = gs@.take((i + 1) as int);
            assert(t1.drop_last() =~= t);
            assert(t1.last() == gs@[i as int]);
            assert forall|j: int| 0 <= j < t1.len() implies 0 <= #[trigger] t1[j] < 0x10000 by {
                assert(t1[j] == gs@[j]);
            }
            lemma_groups_value_bound(t1);
            vstd::arithmetic::power2::lemma_pow2_adds(64, (16 * t1.len() - 64) as nat);
            lemma_family_space();
            if 16 * t1.len() < 128 {
                vstd::arithmetic::power2::lemma_pow2_strictly_increases(
                    (16 * t1.len()) as nat,
                    128,
                );
            }
        }
        v = v * 0x10000 + (gv[i] as u128);
        i += 1;
    }
    proof {
        assert(gs@.take(8) =~= gs@);
    }
    v
}

/// A hexadecimal group is never a dotted quad: it has no dot.
proof fn lemma_h16_not_v4(p: Seq<char>)
    requires
        h16_text(p),
    ensures
        !ipv4_text(p),
{
    if ipv4_text(p) {
        assert forall|j: int| 0 <= j < p.len() implies p[j] != '.' by {
            assert(is_hex_digit(p[j]));
        }
        lemma_split_on_none(p, '.');
        assert(split_on(p, '.').len() == 1);
        assert(false);
    }
}

/// The final piece of an address is never empty.
proof fn lemma_tail_nonempty(p: Seq<char>)
    requires
        tail_text(p),
    ensures
        p.len() >= 1,
{
    if p.len() == 0 && ipv4_text(p) {
        assert(split_on(p, '.') =~~= seq![p]);
    }
}

/// Parse the final piece of an IPv6 address: the group values it
/// provides, one for a hexadecimal group, two for a dotted quad.
fn tail_group_values(s: &str, from: usize, to: usize) -> (r: Option<Vec<u16>>)
    requires
        from <= to <= s@.len(),
    ensures
        ({
            let t = s@.subrange(from as int, to as int);
            match r {
                Some(tv) => tail_text(t) && tv@.map_values(|x: u16| x as int) == tail_values(t)
                    && tv@.len() == tail_width(t),
                None => !tail_text(t),
            }
        }),
{
    let ghost t = s@.subrange(from as int, to as int);
    match parse_h16(s, from, to) {
        Some(v) => {
            proof {
                lemma_h16_not_v4(t);
            }
            let mut tv: Vec<u16> = Vec::new();
            tv.push(v);
            proof {
                let m = tv@.map_values(|x: u16| x as int);
                assert(m[0] == v as int);
                assert(m =~= tail_values(t));
            }
            Some(tv)
        },
        None => {
            let part = s.substring_char(from, to);
            proof {
                assert(part@ == t);
            }
            match parse_ipv4_addr(part) {
                Some(v) => {
                    let hi = (v / 0x10000) as u16;
                    let lo = (v % 0x10000) as u16;
                    let mut tv: Vec<u16> = Vec::new();
                    tv.push(hi);
                    tv.push(lo);
                    proof {
                        assert(ipv4_text(t));
                        let m = tv@.map_values(|x: u16| x as int);
                        assert(m[0] == hi as int && m[1] == lo as int);
                        assert(m =~= tail_values(t));
                    }
                    Some(tv)
                },
                None => None,
            }
        },
    }
}

/// Append the given group values.
fn append_groups(gv: &mut Vec<u16>, tv: &Vec<u16>)
    ensures
        final(gv)@.map_values(|x: u16| x as int) == old(gv)@.map_values(|x: u16| x as int)
            + tv@.map_values(|x: u16| x as int),
{
    let ghost gv0 = old(gv)@;
    let ghost tm = tv@.map_values(|x: u16| x as int);
    let mut i: usize = 0;
    proof {
        assert(gv@.map_values(|x: u16| x as int) =~= gv0.map_values(|x: u16| x as int)
            + tm.take(0));
    }
    while i < tv.len()
        invariant
            i <= tv@.len(),
            tm == tv@.map_values(|x: u16| x as int),
            gv@.map_values(|x: u16| x as int) =~= gv0.map_values(|x: u16| x as int) + tm.take(
                i as int,
            ),
        decreases tv@.len() - i,
    {
        let ghost gprev = gv@;
        gv.push(tv[i]);
        proof {
            assert(gv@ == gprev.push(tv@[i as int]));
            let m2 = gv@.map_values(|x: u16| x as int);
            let m0 = gv0.map_values(|x: u16| x as int);
            let mp = gprev.map_values(|x: u16| x as int);
            assert(mp.len() == gprev.len());
            assert(mp == m0 + tm.take(i as int));
            assert(gprev.len() == m0.len() + i);
            assert forall|j: int| 0 <= j < m2.len() implies #[trigger] m2[j] == (m0 + tm.take(
                (i + 1) as int,
            ))[j] by {
                if j < gprev.len() {
                    assert(gv@[j] == gprev[j]);
                    assert(m2[j] == gprev[j] as int);
                    assert(mp[j] == gprev[j] as int);
                    assert(mp[j] == (m0 + tm.take(i as int))[j]);
                    if j >= m0.len() {
                        assert(tm.take(i as int)[j - m0.len()] == tm[j - m0.len()]);
                        assert(tm.take((i + 1) as int)[j - m0.len()] == tm[j - m0.len()]);
                    }
                } else {
                    assert(j == gprev.len());
                    assert(gv@[j] == tv@[i as int]);
                    assert(m2[j] == tv@[i as int] as int);
                    assert(tm[i as int] == tv@[i as int] as int);
                    assert(tm.take((i + 1) as int)[i as int] == tm[i as int]);
                    assert((m0 + tm.take((i + 1) as int))[j] == tm.take((i + 1) as int)[j
                        - m0.len()]);
                }
            }
            assert(m2 =~= m0 + tm.take((i + 1) as int));
        }
        i += 1;
    }
    proof {
        assert(tm.take(tv@.len() as int) =~= tm);
    }
}

/// Parse an IPv6 address.
#[verifier::rlimit(100)]
fn parse_ipv6_addr(s: &str) -> (r: Option<u128>)
    ensures
        match r {
            Some(v) => ipv6_text(s@) && v as int == ipv6_value(s@),
            None => !ipv6_text(s@),
        },
{
    let ghost ps = split_on(s@, ':');
    let parts = split_bounds(s, ':');
    let n = parts.len();
    // Record which pieces are empty.
    let mut em: Vec<usize> = Vec::new();
    let mut i: usize = 0;
    while i < n
        invariant
            i <= n == parts@.len() == ps.len(),
            forall|j: int|
                0 <= j < parts@.len() ==> {
                    let (from, to) = #[trigger] parts@[j];
                    from <= to <= s@.len() && s@.subrange(from as int, to as int) == ps[j]
                },
            empties_listed(em@, ps, i as int),
            forall|t: int| 0 <= t < em@.len() ==> (#[trigger] em@[t]) < i,
        decreases n - i,
    {
        let (from, to) = parts[i];
        let ghost eprev = em@;
        if from == to {
            proof {
                assert(ps[i as int].len() == 0);
            }
            em.push(i);
            proof {
                assert(em@ == eprev.push(i));
                assert forall|j: int|
                    0 <= j < i + 1 implies ((#[trigger] ps[j]).len() == 0 <==> exists|t: int|
                    0 <= t < em@.len() && em@[t] == j) by {
                    if j == i {
                        assert(em@[em@.len() - 1] == i);
                    } else {
                        if ps[j].len() == 0 {
                            let t = choose|t: int| 0 <= t < eprev.len() && eprev[t] == j;
                            assert(em@[t] == j);
                        } else {
                            if exists|t: int| 0 <= t < em@.len() && em@[t] == j {
                                let t = choose|t: int| 0 <= t < em@.len() && em@[t] == j;
                                assert(t < eprev.len());
                                assert(eprev[t] == j);
                            }
                        }
                    }
                }
            }
        } else {
            proof {
                assert(ps[i as int].len() != 0);
                assert forall|j: int|
                    0 <= j < i + 1 implies ((#[trigger] ps[j]).len() == 0 <==> exists|t: int|
                    0 <= t < em@.len() && em@[t] == j) by {
                    if j == i {
                        if exists|t: int| 0 <= t < em@.len() && em@[t] == j {
                            let t = choose|t: int| 0 <= t < em@.len() && em@[t] == j;
                            assert(em@[t] < i);
                        }
                    }
                }
            }
        }
        i += 1;
    }
    let ne = em.len();
    proof {
        assert forall|t: int| 0 <= t < em@.len() implies em@[t] as int >= t by {
            lemma_sorted_lower(em@, t);
        }
    }
    let mut gv: Vec<u16> = Vec::new();
    proof {
        assert(gv@.map_values(|x: u16| x as int) =~= Seq::<int>::empty());
    }
    if ne == 0 {
        proof {
            assert forall|j: int| 0 <= j < n implies (#[trigger] ps[j]).len() != 0 by {}
            assert(!ipv6_unspecified(ps));
            assert(forall|k: int| !ipv6_gap_at(ps, k));
            assert(!ipv6_prefix_gap(ps));
            assert(!ipv6_suffix_gap(ps));
        }
        if n > 9 {
            proof {
                if ipv6_all_groups(ps) {
                    assert(tail_width(ps[ps.len() - 1]) <= 2);
                }
            }
            return None;
        }
        let (lf, lt) = parts[n - 1];
        let tv = match tail_group_values(s, lf, lt) {
            Some(tv) => tv,
            None => {
                return None;
            },
        };
        if n - 1 + tv.len() != 8 {
            return None;
        }
        if !push_group_values(s, &parts, 0, n - 1, &mut gv, Ghost(ps)) {
            return None;
        }
        append_groups(&mut gv, &tv);
        proof {
            assert(ipv6_all_groups(ps));
            assert(gv@.map_values(|x: u16| x as int) =~= h16_values(ps, 0, ps.len() - 1)
                + tail_values(ps[ps.len() - 1]));
            assert(gv@.map_values(|x: u16| x as int).len() == gv@.len());
            assert(gv@.len() == 8);
        }
        Some(fold_groups(&gv))
    } else if ne == 1 {
        let k = em[0];
        proof {
            assert(ps[k as int].len() == 0);
            assert forall|j: int| 0 <= j < n && j != k implies (#[trigger] ps[j]).len() != 0 by {}
            if ipv6_all_groups(ps) {
                if (k as int) < ps.len() - 1 {
                    assert(h16_text(ps[k as int]));
                } else {
                    lemma_tail_nonempty(ps[ps.len() - 1]);
                }
                assert(false);
            }
            assert(!ipv6_unspecified(ps));
            assert(!ipv6_prefix_gap(ps));
            assert(!ipv6_suffix_gap(ps));
            assert forall|k2: int| k2 != k implies !ipv6_gap_at(ps, k2) by {}
        }
        if k == 0 || k == n - 1 {
            proof {
                assert(!ipv6_gap_at(ps, k as int));
            }
            return None;
        }
        let (lf, lt) = parts[n - 1];
        let tv = match tail_group_values(s, lf, lt) {
            Some(tv) => tv,
            None => {
                proof {
                    assert(!ipv6_gap_at(ps, k as int));
                }
                return None;
            },
        };
        let w = tv.len();
        if n - 2 + w > 7 {
            proof {
                assert(!ipv6_gap_at(ps, k as int));
            }
            return None;
        }
        if !push_group_values(s, &parts, 0, k, &mut gv, Ghost(ps)) {
            proof {
                assert(!ipv6_gap_at(ps, k as int));
            }
            return None;
        }
        push_zero_values(&mut gv, 10 - n - w);
        if !push_group_values(s, &parts, k + 1, n - 1, &mut gv, Ghost(ps)) {
            proof {
                assert(!ipv6_gap_at(ps, k as int));
            }
            return None;
        }
        append_groups(&mut gv, &tv);
        proof {
            assert(ipv6_gap_at(ps, k as int));
            let kc = choose|kc: int| ipv6_gap_at(ps, kc);
            assert(kc == k as int);
            assert(gv@.map_values(|x: u16| x as int) =~= h16_values(ps, 0, k as int) + seq_zeros(
                10 - ps.len() - tail_width(ps[ps.len() - 1]),
            ) + h16_values(ps, k as int + 1, ps.len() - 1) + tail_values(ps[ps.len() - 1]));
            assert(gv@.map_values(|x: u16| x as int).len() == gv@.len());
            assert(gv@.len() == 8);
        }
        Some(fold_groups(&gv))
    } else if ne == 2 {
        let e0 = em[0];
        let e1 = em[1];
        proof {
            assert(e0 < e1);
            assert(ps[e0 as int].len() == 0 && ps[e1 as int].len() == 0);
            assert forall|j: int|
                0 <= j < n && j != e0 && j != e1 implies (#[trigger] ps[j]).len() != 0 by {}
            if ipv6_all_groups(ps) {
                if (e0 as int) < ps.len() - 1 {
                    assert(h16_text(ps[e0 as int]));
                } else {
                    lemma_tail_nonempty(ps[ps.len() - 1]);
                }
                assert(false);
            }
            assert(!ipv6_unspecified(ps));
            assert forall|k2: int| !ipv6_gap_at(ps, k2) by {
                if ipv6_gap_at(ps, k2) {
                    let o: int = if k2 != e0 {
                        e0 as int
                    } else {
                        e1 as int
                    };
                    assert(ps[o].len() == 0);
                    if o < ps.len() - 1 {
                        assert(h16_text(ps[o]));
                    } else {
                        lemma_tail_nonempty(ps[ps.len() - 1]);
                    }
                    assert(false);
                }
            }
        }
        if e0 == 0 && e1 == 1 {
            proof {
                if ipv6_suffix_gap(ps) {
                    assert(ps[ps.len() - 1].len() == 0);
                    assert(e0 == n - 2 && e1 == n - 1);
                    assert(false);
                }
            }
            if n < 3 {
                return None;
            }
            let (lf, lt) = parts[n - 1];
            let tv = match tail_group_values(s, lf, lt) {
                Some(tv) => tv,
                None => {
                    return None;
                },
            };
            let w = tv.len();
            if n - 3 + w > 7 {
                return None;
            }
            push_zero_values(&mut gv, 11 - n - w);
            if !push_group_values(s, &parts, 2, n - 1, &mut gv, Ghost(ps)) {
                return None;
            }
            append_groups(&mut gv, &tv);
            proof {
                assert(ipv6_prefix_gap(ps));
                assert(gv@.map_values(|x: u16| x as int) =~= seq_zeros(
                    11 - ps.len() - tail_width(ps[ps.len() - 1]),
                ) + h16_values(ps, 2, ps.len() - 1) + tail_values(ps[ps.len() - 1]));
                assert(gv@.map_values(|x: u16| x as int).len() == gv@.len());
                assert(gv@.len() == 8);
            }
            Some(fold_groups(&gv))
        } else if e0 == n - 2 && e1 == n - 1 {
            proof {
                if ipv6_prefix_gap(ps) {
                    assert(ps[0].len() == 0 && ps[1].len() == 0);
                    assert(e0 == 0 && e1 == 1);
                    assert(false);
                }
            }
            if n > 9 || n < 3 {
                return None;
            }
            if !push_group_values(s, &parts, 0, n - 2, &mut gv, Ghost(ps)) {
                return None;
            }
            push_zero_values(&mut gv, 10 - n);
            proof {
                assert(ipv6_suffix_gap(ps));
                assert(gv@.map_values(|x: u16| x as int) =~= h16_values(ps, 0, ps.len() - 2)
                    + seq_zeros(10 - ps.len()));
                assert(gv@.map_values(|x: u16| x as int).len() == gv@.len());
                assert(gv@.len() == 8);
            }
            Some(fold_groups(&gv))
        } else {
            proof {
                if ipv6_prefix_gap(ps) {
                    assert(ps[0].len() == 0 && ps[1].len() == 0);
                    assert(e0 == 0 && e1 == 1);
                }
                if ipv6_suffix_gap(ps) {
                    assert(ps[ps.len() - 1].len() == 0 && ps[ps.len() - 2].len() == 0);
                    assert(e0 == n - 2 && e1 == n - 1);
                }
            }
            return None;
        }
    } else if ne == 3 {
        proof {
            assert(ps[em@[0] as int].len() == 0 && ps[em@[1] as int].len() == 0 && ps[
                em@[2] as int].len() == 0);
            if ipv6_all_groups(ps) {
                if (em@[0] as int) < ps.len() - 1 {
                    assert(h16_text(ps[em@[0] as int]));
                } else {
                    lemma_tail_nonempty(ps[ps.len() - 1]);
                }
                assert(false);
            }
            assert forall|k2: int| !ipv6_gap_at(ps, k2) by {
                if ipv6_gap_at(ps, k2) {
                    let o: int = if k2 != em@[0] as int {
                        em@[0] as int
                    } else {
                        em@[1] as int
                    };
                    assert(ps[o].len() == 0);
                    if o < ps.len() - 1 {
                        assert(h16_text(ps[o]));
                    } else {
                        lemma_tail_nonempty(ps[ps.len() - 1]);
                    }
                    assert(false);
                }
            }
            if ipv6_prefix_gap(ps) {
                assert(em@[2] as int >= 2);
                lemma_tail_nonempty(ps[ps.len() - 1]);
                if (em@[2] as int) < ps.len() - 1 {
                    assert(h16_text(ps[em@[2] as int]));
                }
                assert(false);
            }
            if ipv6_suffix_gap(ps) {
                assert(em@[0] as int <= ps.len() - 3);
                assert(h16_text(ps[em@[0] as int]));
                assert(false);
            }
        }
        if n != 3 {
            proof {
                assert(!ipv6_unspecified(ps));
            }
            return None;
        }
        proof {
            assert(em@[0] as int == 0 && em@[1] as int == 1 && em@[2] as int == 2) by {
                assert(em@[0] < em@[1] < em@[2] < 3);
            }
            assert(ipv6_unspecified(ps));
        }
        push_zero_values(&mut gv, 8);
        proof {
            assert(gv@.map_values(|x: u16| x as int) =~= seq_zeros(8));
            assert(gv@.map_values(|x: u16| x as int).len() == gv@.len());
            assert(gv@.len() == 8);
        }
        Some(fold_groups(&gv))
    } else {
        proof {
            assert(ne >= 4);
            assert(ps[em@[0] as int].len() == 0 && ps[em@[1] as int].len() == 0 && ps[
                em@[2] as int].len() == 0 && ps[em@[3] as int].len() == 0);
            if ipv6_all_groups(ps) {
                if (em@[0] as int) < ps.len() - 1 {
                    assert(h16_text(ps[em@[0] as int]));
                } else {
                    lemma_tail_nonempty(ps[ps.len() - 1]);
                }
                assert(false);
            }
            assert(em@[3] as int >= 3);
            assert(n > 3);
            assert(!ipv6_unspecified(ps));
            assert forall|k2: int| !ipv6_gap_at(ps, k2) by {
                if ipv6_gap_at(ps, k2) {
                    let o: int = if k2 != em@[0] as int {
                        em@[0] as int
                    } else {
                        em@[1] as int
                    };
                    assert(ps[o].len() == 0);
                    if o < ps.len() - 1 {
                        assert(h16_text(ps[o]));
                    } else {
                        lemma_tail_nonempty(ps[ps.len() - 1]);
                    }
                    assert(false);
                }
            }
            if ipv6_prefix_gap(ps) {
                assert(em@[2] as int >= 2);
                lemma_tail_nonempty(ps[ps.len() - 1]);
                if (em@[2] as int) < ps.len() - 1 {
                    assert(h16_text(ps[em@[2] as int]));
                } else {
                    if (em@[3] as int) < ps.len() - 1 {
                        assert(h16_text(ps[em@[3] as int]));
                    }
                }
                assert(false);
            }
            if ipv6_suffix_gap(ps) {
                assert(em@[1] as int <= em@[3] as int - 2);
                assert(em@[3] as int <= ps.len() - 1);
                assert(h16_text(ps[em@[1] as int]));
                assert(false);
            }
        }
        None
    }
}

/// The text of an address of either family.
pub open spec fn address_text(s: Seq<char>) -> bool {
    ipv4_text(s) || ipv6_text(s)
}

/// The value an address text denotes.
pub open spec fn address_text_value(s: Seq<char>) -> int {
    if ipv4_text(s) {
        ipv4_value(s)
    } else {
        ipv6_value(s)
    }
}

/// Parse an address of either family, as the original notation decides:
/// dotted decimal for IPv4, colon-separated hexadecimal for IPv6.
fn parse_address(s: &str) -> (r: Option<IpAddress>)
    ensures
        (r is Some) == address_text(s@),
        match r {
            Some(a) => address_is_v6(a) == !ipv4_text(s@) && address_value(a)
                == address_text_value(s@),
            None => true,
        },
{
    match parse_ipv4_addr(s) {
        Some(v) => Some(IpAddress::V4(v)),
        None => match parse_ipv6_addr(s) {
            Some(v) => Some(IpAddress::V6(v)),
            None => None,
        },
    }
}

/// The pieces of a range text, split at the slashes: a well-formed text
/// has exactly one slash, an address before it and a prefix length
/// after it.
pub open spec fn range_text_parseable(s: Seq<char>) -> bool {
    let ps = split_on(s, '/');
    &&& ps.len() == 2
    &&& address_text(ps[0])
    &&& prefix_length_text(ps[1])
}

/// The block a parseable range text denotes.
pub open spec fn range_text_block(s: Seq<char>) -> Block {
    let ps = split_on(s, '/');
    Block {
        v6: !ipv4_text(ps[0]),
        addr: address_text_value(ps[0]),
        plen: dec_value(ps[1]),
    }
}

impl IpRange {
    /// Parse a range of either family from text of the form
    /// `<address>/<prefix-length>`.  Succeeds exactly on a parseable
    /// text whose block is well formed; a malformed text gives
    /// `UnparseableRange`, a prefix length beyond the family's width
    /// `InvalidPrefixLength`, and a non-aligned address
    /// `InvalidHostAddress`.
    pub fn from_text(s: &str) -> (r: Result<IpRange, RangeParseError>)
        ensures
            (r is Ok) == (range_text_parseable(s@) && wf_block(range_text_block(s@))),
            match r {
                Ok(rg) => rg.inv() && rg.block() == range_text_block(s@),
                Err(RangeParseError::UnparseableRange(e)) => !range_text_parseable(s@)
                    && e.text@ == s@,
                Err(RangeParseError::InvalidPrefixLength(_)) => range_text_parseable(s@)
                    && range_text_block(s@).plen > family_width(range_text_block(s@).v6),
                Err(RangeParseError::InvalidHostAddress(_)) => range_text_parseable(s@)
                    && range_text_block(s@).plen <= family_width(range_text_block(s@).v6)
                    && !wf_block(range_text_block(s@)),
            },
    {
        let parts = split_bounds(s, '/');
        if parts.len() != 2 {
            return Err(
                RangeParseError::UnparseableRange(
                    UnparseableRangeError { text: String::from_str(s) },
                ),
            );
        }
        let (h0, h1) = parts[0];
        let (p0, p1) = parts[1];
        let host = s.substring_char(h0, h1);
        proof {
            assert(host@ == split_on(s@, '/')[0]);
        }
        let addr = match parse_address(host) {
            Some(a) => a,
            None => {
                return Err(
                    RangeParseError::UnparseableRange(
                        UnparseableRangeError { text: String::from_str(s) },
                    ),
                );
            },
        };
        let prefix = match parse_dec255(s, p0, p1) {
            Some(v) => v,
            None => {
                return Err(
                    RangeParseError::UnparseableRange(
                        UnparseableRangeError { text: String::from_str(s) },
                    ),
                );
            },
        };
        proof {
            assert(address_block(addr, prefix as int) == range_text_block(s@));
        }
        match IpRange::new(addr, prefix) {
            Ok(rg) => Ok(rg),
            Err(InvalidRangeError::InvalidPrefixLength(e)) => Err(
                RangeParseError::InvalidPrefixLength(e),
            ),
            Err(InvalidRangeError::InvalidHostAddress(e)) => Err(
                RangeParseError::InvalidHostAddress(e),
            ),
        }
    }
}

impl core::str::FromStr for IpRange {
    type Err = RangeParseError;

    fn from_str(s: &str) -> Result<IpRange, RangeParseError> {
        IpRange::from_text(s)
    }
}

impl IpAddress {
    /// Parse an address of either family from its standard notation.
    pub fn from_text(s: &str) -> (r: Result<IpAddress, UnparseableRangeError>)
        ensures
            (r is Ok) == address_text(s@),
            match r {
                Ok(a) => address_is_v6(a) == !ipv4_text(s@) && address_value(a)
                    == address_text_value(s@),
                Err(e) => e.text@ == s@,
            },
    {
        match parse_address(s) {
            Some(a) => Ok(a),
            None => Err(UnparseableRangeError { text: String::from_str(s) }),
        }
    }
}

impl core::str::FromStr for IpAddress {
    type Err = UnparseableRangeError;

    fn from_str(s: &str) -> Result<IpAddress, UnparseableRangeError> {
        IpAddress::from_text(s)
    }
}

/// The pieces of an IPv4-only range text: one slash, a dotted quad
/// before it, a prefix length after it.
pub open spec fn ipv4_range_text_parseable(s: Seq<char>) -> bool {
    let ps = split_on(s, '/');
    &&& ps.len() == 2
    &&& ipv4_text(ps[0])
    &&& prefix_length_text(ps[1])
}

/// The pieces of an IPv6-only range text: one slash, a colon-separated
/// address before it, a prefix length after it.
pub open spec fn ipv6_range_text_parseable(s: Seq<char>) -> bool {
    let ps = split_on(s, '/');
    &&& ps.len() == 2
    &&& ipv6_text(ps[0])
    &&& prefix_length_text(ps[1])
}

/// The block a parseable IPv6-only range text denotes.
pub open spec fn ipv6_range_text_block(s: Seq<char>) -> Block {
    let ps = split_on(s, '/');
    Block { v6: true, addr: ipv6_value(ps[0]), plen: dec_value(ps[1]) }
}

impl Ipv4Range {
    /// Parse an IPv4 range from text of the form
    /// `<address>/<prefix-length>`.  Succeeds exactly on a parseable
    /// IPv4 text whose block is well formed, with the same error split
    /// as [`IpRange::from_text`].
    pub fn from_text(s: &str) -> (r: Result<Ipv4Range, RangeParseError>)
        ensures
            (r is Ok) == (ipv4_range_text_parseable(s@) && wf_block(range_text_block(s@))),
            match r {
                Ok(rg) => rg.inv() && rg.block() == range_text_block(s@),
                Err(RangeParseError::UnparseableRange(e)) => !ipv4_range_text_parseable(s@)
                    && e.text@ == s@,
                Err(RangeParseError::InvalidPrefixLength(_)) => ipv4_range_text_parseable(s@)
                    && range_text_block(s@).plen > 32,
                Err(RangeParseError::InvalidHostAddress(_)) => ipv4_range_text_parseable(s@)
                    && range_text_block(s@).plen <= 32 && !wf_block(range_text_block(s@)),
            },
    {
        let parts = split_bounds(s, '/');
        if parts.len() != 2 {
            return Err(
                RangeParseError::UnparseableRange(
                    UnparseableRangeError { text: String::from_str(s) },
                ),
            );
        }
        let (h0, h1) = parts[0];
        let (p0, p1) = parts[1];
        let host = s.substring_char(h0, h1);
        proof {
            assert(host@ == split_on(s@, '/')[0]);
        }
        let addr = match parse_ipv4_addr(host) {
            Some(v) => v,
            None => {
                return Err(
                    RangeParseError::UnparseableRange(
                        UnparseableRangeError { text: String::from_str(s) },
                    ),
                );
            },
        };
        let prefix = match parse_dec255(s, p0, p1) {
            Some(v) => v,
            None => {
                return Err(
                    RangeParseError::UnparseableRange(
                        UnparseableRangeError { text: String::from_str(s) },
                    ),
                );
            },
        };
        proof {
            assert(range_text_block(s@) == (Block {
                v6: false,
                addr: addr as int,
                plen: prefix as int,
            }));
        }
        match Ipv4Range::new(addr, prefix) {
            Ok(rg) => Ok(rg),
            Err(InvalidRangeError::InvalidPrefixLength(e)) => Err(
                RangeParseError::InvalidPrefixLength(e),
            ),
            Err(InvalidRangeError::InvalidHostAddress(e)) => Err(
                RangeParseError::InvalidHostAddress(e),
            ),
        }
    }
}

impl core::str::FromStr for Ipv4Range {
    type Err = RangeParseError;

    fn from_str(s: &str) -> Result<Ipv4Range, RangeParseError> {
        Ipv4Range::from_text(s)
    }
}

impl Ipv6Range {
    /// Parse an IPv6 range from text of the form
    /// `<address>/<prefix-length>`.  Succeeds exactly on a parseable
    /// IPv6 text whose block is well formed, with the same error split
    /// as [`IpRange::from_text`].
    pub fn from_text(s: &str) -> (r: Result<Ipv6Range, RangeParseError>)
        ensures
            (r is Ok) == (ipv6_range_text_parseable(s@) && wf_block(ipv6_range_text_block(s@))),
            match r {
                Ok(rg) => rg.inv() && rg.block() == ipv6_range_text_block(s@),
                Err(RangeParseError::UnparseableRange(e)) => !ipv6_range_text_parseable(s@)
                    && e.text@ == s@,
                Err(RangeParseError::InvalidPrefixLength(_)) => ipv6_range_text_parseable(s@)
                    && ipv6_range_text_block(s@).plen > 128,
                Err(RangeParseError::InvalidHostAddress(_)) => ipv6_range_text_parseable(s@)
                    && ipv6_range_text_block(s@).plen <= 128 && !wf_block(
                    ipv6_range_text_block(s@),
                ),
            },
    {
        let parts = split_bounds(s, '/');
        if parts.len() != 2 {
            return Err(
                RangeParseError::UnparseableRange(
                    UnparseableRangeError { text: String::from_str(s) },
                ),
            );
        }
        let (h0, h1) = parts[0];
        let (p0, p1) = parts[1];
        let host = s.substring_char(h0, h1);
        proof {
            assert(host@ == split_on(s@, '/')[0]);
        }
        let addr = match parse_ipv6_addr(host) {
            Some(v) => v,
            None => {
                return Err(
                    RangeParseError::UnparseableRange(
                        UnparseableRangeError { text: String::from_str(s) },
                    ),
                );
            },
        };
        let prefix = match parse_dec255(s, p0, p1) {
            Some(v) => v,
            None => {
                return Err(
                    RangeParseError::UnparseableRange(
                        UnparseableRangeError { text: String::from_str(s) },
                    ),
                );
            },
        };
        proof {
            assert(ipv6_range_text_block(s@) == (Block {
                v6: true,
                addr: addr as int,
                plen: prefix as int,
            }));
        }
        match Ipv6Range::new(addr, prefix) {
            Ok(rg) => Ok(rg),
            Err(InvalidRangeError::InvalidPrefixLength(e)) => Err(
                RangeParseError::InvalidPrefixLength(e),
            ),
            Err(InvalidRangeError::InvalidHostAddress(e)) => Err(
                RangeParseError::InvalidHostAddress(e),
            ),
        }
    }
}

impl core::str::FromStr for Ipv6Range {
    type Err = RangeParseError;

    fn from_str(s: &str) -> Result<Ipv6Range, RangeParseError> {
        Ipv6Range::from_text(s)
    }
}

/// A strictly increasing list of naturals grows at least by index.
proof fn lemma_sorted_lower(em: Seq<usize>, t: int)
    requires
        0 <= t < em.len(),
        forall|a: int, b: int| 0 <= a < b < em.len() ==> em[a] < em[b],
    ensures
        em[t] as int >= t,
    decreases t,
{
    if t > 0 {
        lemma_sorted_lower(em, t - 1);
    }
}

} // verus!
