//! Half-open byte intervals `[start, end)` in a source document.

use vstd::prelude::*;

verus! {

/// A half-open byte interval `[start, end)` inside a document.
#[derive(Clone, Copy, Debug, PartialEq, Eq, Structural)]
pub struct ByteRange {
    pub start: usize,
    pub end: usize,
}

impl ByteRange {
    /// A range is well formed when its start does not lie past its end.
    pub open spec fn wf(self) -> bool {
        self.start <= self.end
    }

    /// Does the half-open interval contain byte offset `o`?
    pub open spec fn spec_contains(self, o: int) -> bool {
        self.start <= o < self.end
    }

    /// Is `self` contained in `outer` (`self ⊆ outer`)?
    pub open spec fn spec_inside(self, outer: ByteRange) -> bool {
        outer.start <= self.start && self.end <= outer.end
    }

    /// Are `self` and `other` disjoint intervals?
    pub open spec fn spec_disjoint(self, other: ByteRange) -> bool {
        self.end <= other.start || other.end <= self.start
    }

    pub fn new(start: usize, end: usize) -> (r: ByteRange)
        requires
            start <= end,
        ensures
            r == (ByteRange { start, end }),
    {
        ByteRange { start, end }
    }

    /// Does the interval contain the byte offset `o`?
    pub fn contains_offset(&self, o: usize) -> (r: bool)
        ensures
            r == self.spec_contains(o as int),
    {
        self.start <= o && o < self.end
    }

    /// Is `self` contained in `outer`?
    pub fn inside(&self, outer: &ByteRange) -> (r: bool)
        ensures
            r == self.spec_inside(*outer),
    {
        outer.start <= self.start && self.end <= outer.end
    }
}

} // verus!
