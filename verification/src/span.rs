//! Source locations: half-open offset intervals into one rule's regex text.

use vstd::prelude::*;

verus! {

/// Half-open interval `[start, end)` of character offsets into the
/// originating regex substring. Every token and every syntax-tree node
/// carries one, so that a diagnostic can point at the exact column.
#[derive(Debug, Clone, Copy, PartialEq, Eq, Structural)]
pub struct Span {
    pub start: usize,
    pub end: usize,
}

impl Span {
    /// A properly ordered interval.
    pub open spec fn wf(self) -> bool {
        self.start <= self.end
    }

    pub fn new(start: usize, end: usize) -> (s: Span)
        ensures
            s.start == start,
            s.end == end,
    {
        Span { start, end }
    }

    /// Number of offsets covered; zero when the interval is inverted.
    pub fn length(&self) -> (n: usize)
        ensures
            n == if self.start <= self.end { self.end - self.start } else { 0 },
    {
        if self.start <= self.end {
            self.end - self.start
        } else {
            0
        }
    }
}

/// `inner` lies inside `outer` (and is itself properly ordered).
pub open spec fn span_within(inner: Span, outer: Span) -> bool {
    outer.start <= inner.start && inner.start <= inner.end && inner.end <= outer.end
}

} // verus!
