//! Byte spans of source text.

use vstd::prelude::*;

verus! {

/// A half-open range of byte offsets, `start..end`.
#[derive(Clone, Copy, Debug, PartialEq, Eq, Structural)]
pub struct Span {
    pub start: u32,
    pub end: u32,
}

impl Span {
    /// `other` lies within `self`, bounds included.
    pub open spec fn spec_contains(self, other: Span) -> bool {
        self.start <= other.start && other.end <= self.end
    }

    /// `other` lies within `self` and touches neither bound.
    pub open spec fn spec_strictly_contains(self, other: Span) -> bool {
        self.start < other.start && other.end < self.end
    }

    pub fn new(start: u32, end: u32) -> (span: Span)
        ensures
            span == (Span { start, end }),
    {
        Span { start, end }
    }

    #[verifier::when_used_as_spec(spec_contains)]
    pub fn contains(self, other: Span) -> (inside: bool)
        ensures
            inside == self.spec_contains(other),
    {
        self.start <= other.start && other.end <= self.end
    }

    #[verifier::when_used_as_spec(spec_strictly_contains)]
    pub fn strictly_contains(self, other: Span) -> (inside: bool)
        ensures
            inside == self.spec_strictly_contains(other),
    {
        self.start < other.start && other.end < self.end
    }
}

} // verus!
