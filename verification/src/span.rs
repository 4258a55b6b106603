use vstd::prelude::*;

use crate::index::{Index, Length};

verus! {

/// A span in the source code, akin to `start..end`: the end is exclusive.
#[derive(Debug, Clone, Copy, PartialEq, Eq)]
pub struct Span<I> {
    /// The start of the span.
    pub start: I,
    /// The end of the span.
    pub end: I,
}

impl<I> Span<I> {
    /// Construct a new span.
    pub fn new(start: I, end: I) -> (r: Self)
        ensures
            r.start == start,
            r.end == end,
    {
        Span { start, end }
    }

    /// Construct a span corresponding to the given point.
    pub fn point(at: I) -> (r: Self)
        where I: Copy,
        ensures
            r.start == at,
            r.end == at,
    {
        Span { start: at, end: at }
    }
}

impl<I: Index> Span<I> {
    /// The smallest span covering both `self` and `other`.
    pub open spec fn spec_join(self, other: Self) -> Self {
        Span {
            start: if self.start.spec_pos() <= other.start.spec_pos() { self.start } else { other.start },
            end: if self.end.spec_pos() >= other.end.spec_pos() { self.end } else { other.end },
        }
    }

    /// Join the current span with another.
    pub fn join(&self, other: &Self) -> (r: Self)
        ensures
            r == self.spec_join(*other),
    {
        let start = if self.start.le(&other.start) { self.start } else { other.start };
        let end = if other.end.le(&self.end) { self.end } else { other.end };
        Span { start, end }
    }

    /// Test if the span is empty.
    pub fn is_empty(&self) -> (r: bool)
        ensures
            r == (self.start.spec_pos() == self.end.spec_pos()),
    {
        self.end.le(&self.start) && self.start.le(&self.end)
    }

    /// Test if span contains the given index.
    pub fn contains(self, index: &I) -> (r: bool)
        ensures
            r == (self.start.spec_pos() <= index.spec_pos() && index.spec_pos() < self.end.spec_pos()),
    {
        self.start.le(index) && !self.end.le(index)
    }

    /// Coerce into a range of `usize`, which is useful for slicing.
    pub fn range(self) -> (r: core::ops::Range<usize>)
        ensures
            r.start == self.start.spec_pos(),
            r.end == self.end.spec_pos(),
    {
        self.start.as_usize()..self.end.as_usize()
    }

    /// The length of the span, zero if it ends before it starts.
    pub fn len(&self) -> (r: I::Length)
        ensures
            r.spec_len() == if self.end.spec_pos() >= self.start.spec_pos() {
                (self.end.spec_pos() - self.start.spec_pos()) as nat
            } else {
                0
            },
    {
        self.start.len_to(self.end)
    }

    /// Joining is commutative: `a.join(b)` and `b.join(a)` are the same span.
    pub proof fn lemma_join_commutative(a: Self, b: Self)
        ensures
            a.spec_join(b) == b.spec_join(a),
    {
        I::lemma_pos_injective(a.start, b.start);
        I::lemma_pos_injective(a.end, b.end);
    }

    /// A joined span covers both of the spans it was joined from.
    pub proof fn lemma_join_covers(a: Self, b: Self)
        ensures
            a.spec_join(b).start.spec_pos() <= a.start.spec_pos(),
            a.spec_join(b).start.spec_pos() <= b.start.spec_pos(),
            a.spec_join(b).end.spec_pos() >= a.end.spec_pos(),
            a.spec_join(b).end.spec_pos() >= b.end.spec_pos(),
    {
    }
}

} // verus!
