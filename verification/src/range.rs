//! The interval primitive: an inclusive range `[start, end]` of `usize`
//! values, together with the error kinds returned by the range routines.

use vstd::prelude::*;

verus! {

/// Errors returned by the range-based routines.
#[derive(Clone, Copy, Debug, PartialEq, Eq, Structural)]
pub enum Error {
    /// An attempt was made to perform an operation on an invalid [`Range`],
    /// i.e. `range.start > range.end`.
    InvalidRange,
    /// An attempt was made to index into a [`RangeSet`](crate::set::RangeSet)
    /// out of its bounds.
    IndexOutOfBounds,
    /// An attempt was made to insert an entry into a
    /// [`RangeSet`](crate::set::RangeSet) that would overflow.
    RangeSetOverflow,
    /// Reserved for allocators built on top of this structure: an attempt was
    /// made to allocate 0 bytes of memory. No routine of this crate raises it.
    ZeroSizedAllocation,
}

/// An inclusive range `[start, end]`: both endpoints are members.
#[derive(Clone, Copy, Debug, PartialEq, Eq, Structural)]
pub struct Range {
    /// Start of the range (inclusive).
    pub start: usize,
    /// End of the range (inclusive).
    pub end: usize,
}

impl Range {
    /// A range is well formed when its bounds are ordered. [`Range::new`] is
    /// the single gate that establishes this; every routine preserves it.
    pub open spec fn wf(self) -> bool {
        self.start <= self.end
    }

    /// The set-of-points reading of a range: does it cover the point `p`?
    pub open spec fn covers(self, p: int) -> bool {
        self.start <= p <= self.end
    }

    /// Returns a new range.
    ///
    /// Returns an error if the range is invalid (i.e. `start > end`).
    pub fn new(start: usize, end: usize) -> (r: Result<Self, Error>)
        ensures
            start <= end ==> r == Ok::<Range, Error>(Range { start, end }),
            start > end ==> r == Err::<Range, Error>(Error::InvalidRange),
    {
        if start <= end {
            Ok(Range { start, end })
        } else {
            Err(Error::InvalidRange)
        }
    }

    /// Check whether `other` is completely contained within this range.
    pub fn contains(&self, other: &Range) -> (r: bool)
        ensures
            r == (self.start <= other.start && other.end <= self.end),
            other.wf() ==> (r <==> forall|p: int| other.covers(p) ==> self.covers(p)),
    {
        proof {
            if other.wf() && !(self.start <= other.start && other.end <= self.end) {
                if self.start > other.start {
                    assert(other.covers(other.start as int) && !self.covers(other.start as int));
                } else {
                    assert(other.covers(other.end as int) && !self.covers(other.end as int));
                }
            }
        }
        self.start <= other.start && self.end >= other.end
    }

    /// Check whether this range overlaps with another range.
    /// If it does, returns the overlap between the two ranges.
    pub fn overlaps(&self, other: &Range) -> (r: Option<Range>)
        requires
            self.wf(),
            other.wf(),
        ensures
            r is Some <==> (self.start <= other.end && other.start <= self.end),
            r is Some <==> exists|p: int| self.covers(p) && other.covers(p),
            r is Some ==> (r->Some_0 == (Range {
                start: if self.start >= other.start { self.start } else { other.start },
                end: if self.end <= other.end { self.end } else { other.end },
            })),
            r is Some ==> forall|p: int|
                r->Some_0.covers(p) <==> self.covers(p) && other.covers(p),
    {
        if self.start <= other.end && other.start <= self.end {
            let s: usize = if self.start >= other.start { self.start } else { other.start };
            let e: usize = if self.end <= other.end { self.end } else { other.end };
            proof {
                assert(self.covers(s as int) && other.covers(s as int));
            }
            Some(Range { start: s, end: e })
        } else {
            None
        }
    }
}

} // verus!
