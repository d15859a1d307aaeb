//! A range paired with the caller's interest flag, with the tombstone
//! state the merge engine uses for in-place removal.

use vstd::prelude::*;

verus! {

use crate::block::{wf_block, Block};
use crate::range::Range;

#[derive(Clone, Copy, Debug, PartialEq, Eq)]
enum State<R> where R: Range {
    Normal { range: R, selected: bool },
    Dummy,
}

/// A `RangeInterest` pairs a range with a boolean `selected` flag, where
/// selected is a caller-defined concept.  The merge engine keeps the flag
/// of a merged range true exactly when one of the ranges merged into it
/// had it true.
///
/// A freshly constructed value is valid.  After a list is merged with
/// [`merge_ranges_slice`](crate::merge_ranges_slice), the entries past the
/// returned count are left invalid (tombstoned); the accessors require a
/// valid value, and unverified callers that read past the reported count
/// stop with a panic.
#[derive(Clone, Copy, Debug, PartialEq, Eq)]
pub struct RangeInterest<R> where R: Range {
    state: State<R>,
}

impl<R: Range> RangeInterest<R> {
    /// Whether the value is valid (not tombstoned by the merge engine).
    pub closed spec fn is_normal(&self) -> bool {
        self.state is Normal
    }

    /// The contained range, for a valid value.
    pub closed spec fn rng(&self) -> R {
        match self.state {
            State::Normal { range, .. } => range,
            State::Dummy => arbitrary(),
        }
    }

    /// The selected flag, for a valid value.
    pub closed spec fn sel(&self) -> bool {
        match self.state {
            State::Normal { selected, .. } => selected,
            State::Dummy => arbitrary(),
        }
    }

    /// The block of the contained range.
    pub open spec fn blk(&self) -> Block {
        self.rng().block()
    }

    /// A valid entry holding a well-formed range.
    pub open spec fn ok(&self) -> bool {
        self.is_normal() && self.rng().inv() && wf_block(self.blk())
    }

    /// The tombstone value itself.
    pub closed spec fn tombstone() -> RangeInterest<R> {
        RangeInterest { state: State::Dummy }
    }

    /// Create a new `RangeInterest` with the given `range` value and
    /// `selected` flag.
    pub fn new(range: R, selected: bool) -> (r: RangeInterest<R>)
        ensures
            r.is_normal(),
            r.rng() == range,
            r.sel() == selected,
    {
        RangeInterest { state: State::Normal { range, selected } }
    }

    /// Return a shared reference to the contained `range` value.
    pub fn range(&self) -> (r: &R)
        requires
            self.is_normal(),
        ensures
            *r == self.rng(),
    {
        match &self.state {
            State::Normal { range, .. } => range,
            State::Dummy => unreached(),
        }
    }

    /// Return a mutable reference to the contained `range` value.
    pub fn range_mut(&mut self) -> (r: &mut R)
        requires
            old(self).is_normal(),
        ensures
            *r == old(self).rng(),
            final(self).is_normal(),
            final(self).sel() == old(self).sel(),
            final(self).rng() == *final(r),
    {
        match &mut self.state {
            State::Normal { range, .. } => range,
            State::Dummy => unreached(),
        }
    }

    /// Return the value of the `selected` flag.
    pub fn is_selected(&self) -> (r: bool)
        requires
            self.is_normal(),
        ensures
            r == self.sel(),
    {
        match &self.state {
            State::Normal { selected, .. } => *selected,
            State::Dummy => unreached(),
        }
    }

    /// Set the value of the `selected` flag.
    pub fn set_selected(&mut self, selected: bool)
        requires
            old(self).is_normal(),
        ensures
            final(self).is_normal(),
            final(self).rng() == old(self).rng(),
            final(self).sel() == selected,
    {
        match &mut self.state {
            State::Normal { selected: flag, .. } => *flag = selected,
            State::Dummy => unreached(),
        }
    }

    /// Unwrap the `RangeInterest` and return the contained `range` value.
    pub fn unwrap(self) -> (r: R)
        requires
            self.is_normal(),
        ensures
            r == self.rng(),
    {
        match self.state {
            State::Normal { range, .. } => range,
            State::Dummy => unreached(),
        }
    }

    /// A tombstone is not a valid entry.
    pub proof fn tombstone_not_normal()
        ensures
            !Self::tombstone().is_normal(),
    {
    }

    /// A fresh tombstone, used by the merge engine as the placeholder
    /// when it moves entries between slots.
    pub(crate) fn tombstone_exec() -> (r: RangeInterest<R>)
        ensures
            r == Self::tombstone(),
            !r.is_normal(),
    {
        RangeInterest { state: State::Dummy }
    }

    /// Tombstone the entry.  Only the merge engine does this.
    pub(crate) fn set_dummy(&mut self)
        ensures
            *final(self) == Self::tombstone(),
            !final(self).is_normal(),
    {
        self.state = State::Dummy;
    }

    /// Whether the entry is tombstoned.
    pub(crate) fn is_dummy(&self) -> (r: bool)
        ensures
            r == !self.is_normal(),
    {
        match &self.state {
            State::Normal { .. } => false,
            State::Dummy => true,
        }
    }
}

} // verus!
