use vstd::prelude::*;

verus! {

/// A half-open interval `[start, end)` of rows of a Burrows-Wheeler
/// transform.
#[derive(Clone, Copy, PartialEq, Eq, Structural, Debug)]
pub struct Range {
    /// Start value of the range.
    pub start: usize,

    /// End value of the range (excluded).
    pub end: usize,
}

impl Range {
    /// Whether the interval holds no row.
    pub open spec fn is_empty_spec(self) -> bool {
        self.end <= self.start
    }

    /// Number of rows in the interval.
    pub open spec fn width_spec(self) -> int {
        if self.is_empty_spec() {
            0
        } else {
            self.end - self.start
        }
    }

    pub fn new(start: usize, end: usize) -> (r: Self)
        ensures
            r.start == start,
            r.end == end,
    {
        Self { start, end }
    }

    pub fn width(&self) -> (w: usize)
        ensures
            w == self.width_spec(),
    {
        if self.empty() {
            return 0;
        }
        self.end - self.start
    }

    pub fn empty(&self) -> (e: bool)
        ensures
            e == self.is_empty_spec(),
    {
        self.end <= self.start
    }
}

/// A pair of synchronized row intervals: one over the forward BWT and
/// one over the BWT of the reversed text.
#[derive(Clone, Copy, PartialEq, Eq, Structural, Debug)]
pub struct RangePair {
    pub normal_range: Range,

    pub reversed_range: Range,
}

impl RangePair {
    pub fn new(normal_range: Range, reversed_range: Range) -> (r: Self)
        ensures
            r.normal_range == normal_range,
            r.reversed_range == reversed_range,
    {
        Self { normal_range, reversed_range }
    }

    pub fn width(&self) -> (w: usize)
        ensures
            w == self.normal_range.width_spec(),
    {
        self.normal_range.width()
    }

    pub fn empty(&self) -> (e: bool)
        ensures
            e == self.normal_range.is_empty_spec(),
    {
        self.normal_range.empty()
    }
}

impl core::convert::From<(usize, usize, usize, usize)> for RangePair {
    /// Build a pair from `(normal start, normal end, reversed start,
    /// reversed end)`.
    fn from(tup: (usize, usize, usize, usize)) -> (r: Self) {
        Self {
            normal_range: Range { start: tup.0, end: tup.1 },
            reversed_range: Range { start: tup.2, end: tup.3 },
        }
    }
}

impl vstd::std_specs::convert::FromSpecImpl<(usize, usize, usize, usize)> for RangePair {
    open spec fn obeys_from_spec() -> bool {
        true
    }

    open spec fn from_spec(tup: (usize, usize, usize, usize)) -> Self {
        RangePair {
            normal_range: Range { start: tup.0, end: tup.1 },
            reversed_range: Range { start: tup.2, end: tup.3 },
        }
    }
}

} // verus!
