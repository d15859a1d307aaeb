//! The older companion of [`RangeInterest`](crate::RangeInterest): a
//! network paired with the caller's interest flag.

use vstd::prelude::*;

verus! {

use crate::network::Network;

enum NetworkInterestState {
    Interesting,
    NotInteresting,
    Dummy,
}

/// A `NetworkInterest` pairs a network with a boolean flag that marks
/// whether the caller is interested in it.  A freshly constructed value
/// is valid; the invalid state exists for in-place removal and its
/// accessors require a valid value.
pub struct NetworkInterest<N> where N: Network {
    network: N,
    state: NetworkInterestState,
}

impl<N: Network> NetworkInterest<N> {
    /// Whether the value is valid.
    pub closed spec fn is_normal(&self) -> bool {
        !(self.state is Dummy)
    }

    /// The contained network.
    pub closed spec fn net(&self) -> N {
        self.network
    }

    /// The interest flag, for a valid value.
    pub closed spec fn interesting(&self) -> bool {
        self.state is Interesting
    }

    /// Create a new `NetworkInterest` with the given `network` value
    /// and `interesting` flag.
    pub fn new(network: N, interesting: bool) -> (r: NetworkInterest<N>)
        ensures
            r.is_normal(),
            r.net() == network,
            r.interesting() == interesting,
    {
        let state = if interesting {
            NetworkInterestState::Interesting
        } else {
            NetworkInterestState::NotInteresting
        };
        NetworkInterest { network, state }
    }

    /// Return a shared reference to the contained `network` value.
    pub fn network(&self) -> (r: &N)
        requires
            self.is_normal(),
        ensures
            *r == self.net(),
    {
        &self.network
    }

    /// Return the value of the `interesting` flag.
    pub fn is_interesting(&self) -> (r: bool)
        requires
            self.is_normal(),
        ensures
            r == self.interesting(),
    {
        match &self.state {
            NetworkInterestState::Interesting => true,
            NetworkInterestState::NotInteresting => false,
            NetworkInterestState::Dummy => unreached(),
        }
    }

    /// Invalidate the entry.
    pub(crate) fn set_dummy(&mut self)
        ensures
            !final(self).is_normal(),
    {
        self.state = NetworkInterestState::Dummy;
    }

    /// Whether the entry is invalid.
    pub(crate) fn is_dummy(&self) -> (r: bool)
        ensures
            r == !self.is_normal(),
    {
        match &self.state {
            NetworkInterestState::Dummy => true,
            _ => false,
        }
    }
}

} // verus!
