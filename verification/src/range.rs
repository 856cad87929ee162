//! Half-open ranges of text positions.
use std::cmp::Ordering;
use vstd::prelude::*;

verus! {

/// A half-open interval `[start, end)` of text positions, with `start <= end`.
///
/// Ranges are ordered lexicographically on `(start, end)`.
#[derive(Clone, Copy, Debug, PartialEq, Eq, Structural, PartialOrd, Ord, Hash)]
pub struct TextRange {
    pub start: usize,
    pub end: usize,
}

impl TextRange {
    /// `start <= end`.
    pub open spec fn valid(self) -> bool {
        self.start <= self.end
    }

    /// The range holds no position.
    pub open spec fn is_empty(self) -> bool {
        self.start == self.end
    }

    /// Position `p` lies in the range.
    pub open spec fn contains(self, p: int) -> bool {
        self.start <= p < self.end
    }

    /// The open interiors of the two ranges share a point.  Ranges that only
    /// touch do not overlap, and a range without positions overlaps nothing.
    pub open spec fn overlaps(self, other: TextRange) -> bool {
        &&& self.start < other.end
        &&& other.start < self.end
        &&& self.start < self.end
        &&& other.start < other.end
    }

    /// `self` lies before `other` in the lexicographic order on `(start, end)`.
    pub open spec fn lex_lt(self, other: TextRange) -> bool {
        self.start < other.start || (self.start == other.start && self.end < other.end)
    }

    /// The part common to both ranges, where they overlap.
    pub open spec fn common(self, other: TextRange) -> Option<TextRange> {
        if self.overlaps(other) {
            Some(
                TextRange {
                    start: if self.start >= other.start {
                        self.start
                    } else {
                        other.start
                    },
                    end: if self.end <= other.end {
                        self.end
                    } else {
                        other.end
                    },
                },
            )
        } else {
            None
        }
    }

    /// How `self` stands to `other` when ranges are compared as blocks of
    /// text: equal, wholly before, wholly after, or neither.
    pub open spec fn strict_order_of(self, other: TextRange) -> Option<Ordering> {
        if self == other {
            Some(Ordering::Equal)
        } else if self.end <= other.start {
            Some(Ordering::Less)
        } else if self.start >= other.end {
            Some(Ordering::Greater)
        } else {
            None
        }
    }

    /// Builds the range `[start, end)`.
    pub fn new(start: usize, end: usize) -> (r: Self)
        requires
            start <= end,
        ensures
            r == (TextRange { start, end }),
    {
        TextRange { start, end }
    }

    /// Builds `[start, end)` if it holds at least one position.
    pub fn new_valid(start: usize, end: usize) -> (r: Option<Self>)
        ensures
            r == if start < end {
                Some(TextRange { start, end })
            } else {
                None
            },
    {
        if start < end {
            Some(TextRange { start, end })
        } else {
            None
        }
    }

    /// Whether the range holds no position.
    pub fn empty(&self) -> (r: bool)
        ensures
            r == self.is_empty(),
    {
        self.start == self.end
    }

    /// Whether the two ranges overlap.
    pub fn intersects(&self, other: Self) -> (r: bool)
        ensures
            r == self.overlaps(other),
    {
        self.start < other.end && other.start < self.end && self.start < self.end && other.start
            < other.end
    }

    /// The overlap of the two ranges, or `None` where they do not overlap.
    pub fn intersection(&self, other: Self) -> (r: Option<Self>)
        ensures
            r == self.common(other),
    {
        if self.intersects(other) {
            let start = if self.start >= other.start {
                self.start
            } else {
                other.start
            };
            let end = if self.end <= other.end {
                self.end
            } else {
                other.end
            };
            Some(TextRange { start, end })
        } else {
            None
        }
    }

    /// Compares two ranges as blocks of text.
    ///
    /// `Less` and `Greater` mean that `self` lies wholly before or after
    /// `other`; `None` means that neither holds and the ranges differ, which
    /// for two ranges with positions is the case exactly when they overlap.
    pub fn strict_order(&self, other: &Self) -> (r: Option<Ordering>)
        ensures
            r == self.strict_order_of(*other),
            !self.is_empty() && !other.is_empty() && self.valid() && other.valid() ==> (r.is_none()
                <==> self.overlaps(*other) && *self != *other),
    {
        if self.start == other.start && self.end == other.end {
            Some(Ordering::Equal)
        } else if self.end <= other.start {
            Some(Ordering::Less)
        } else if self.start >= other.end {
            Some(Ordering::Greater)
        } else {
            None
        }
    }

    /// Whether `self` comes before `other` in the order of ranges.
    pub fn lex_less(&self, other: &Self) -> (r: bool)
        ensures
            r == self.lex_lt(*other),
    {
        self.start < other.start || (self.start == other.start && self.end < other.end)
    }

    /// Cuts the range at `position`.
    ///
    /// With `keep_left` the range keeps `[start, position)` and the result is
    /// `[position, end)`; without it the range keeps `[position, end)` and the
    /// result is `[start, position)`.  Either way the two together make up the
    /// range as it was.
    pub fn split_at(&mut self, position: usize, keep_left: bool) -> (r: Self)
        requires
            old(self).start <= position <= old(self).end,
        ensures
            keep_left ==> *final(self) == (TextRange { start: old(self).start, end: position })
                && r == (TextRange { start: position, end: old(self).end }),
            !keep_left ==> *final(self) == (TextRange { start: position, end: old(self).end })
                && r == (TextRange { start: old(self).start, end: position }),
    {
        if keep_left {
            let end = self.end;
            self.end = position;
            TextRange { start: position, end }
        } else {
            let start = self.start;
            self.start = position;
            TextRange { start, end: position }
        }
    }

    /// Moves the range `delta` positions to the right.
    pub fn advance(&mut self, delta: usize)
        requires
            old(self).end + delta <= usize::MAX,
            old(self).valid(),
        ensures
            final(self).start == old(self).start + delta,
            final(self).end == old(self).end + delta,
    {
        self.start = self.start + delta;
        self.end = self.end + delta;
    }
}

} // verus!
