//! Ranges of source text.

use vstd::prelude::*;

verus! {

/// A half-open range `[start, end)` of character offsets in a source text.
#[derive(Clone, Copy, Debug, PartialEq, Eq, Structural)]
pub struct Span {
    pub start: usize,
    pub end: usize,
}

impl Span {
    pub fn new(start: usize, end: usize) -> (r: Span)
        ensures
            r.start == start,
            r.end == end,
    {
        Span { start, end }
    }

    /// The range made of one character at `at`.
    pub fn point(at: usize) -> (r: Span)
        requires
            at < usize::MAX,
        ensures
            r.start == at,
            r.end == at + 1,
    {
        Span { start: at, end: at + 1 }
    }

    /// The smallest range that holds both ranges.
    pub fn union(&self, other: &Span) -> (r: Span)
        ensures
            r.start == if self.start <= other.start { self.start } else { other.start },
            r.end == if self.end >= other.end { self.end } else { other.end },
    {
        let start = if self.start <= other.start { self.start } else { other.start };
        let end = if self.end >= other.end { self.end } else { other.end };
        Span { start, end }
    }
}

} // verus!
