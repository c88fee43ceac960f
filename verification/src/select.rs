//! Selections: the range of bytes covered by the cursor.

use std::ops::Range;
use vstd::prelude::*;

verus! {

/// The range of bytes selected by the cursor
#[derive(Debug, Clone, Copy, PartialEq, Eq, Hash, Default)]
pub struct Selection {
    /// Where the selection was initially placed
    pub head: usize,
    /// The part of the selection that moves with the arrow keys
    pub tail: usize,
}

impl Selection {
    /// The smaller of the two ends
    pub open spec fn low(self) -> usize {
        if self.tail < self.head {
            self.tail
        } else {
            self.head
        }
    }

    /// The larger of the two ends
    pub open spec fn high(self) -> usize {
        if self.tail < self.head {
            self.head
        } else {
            self.tail
        }
    }

    /// The front side of the range
    pub fn start(&self) -> (r: &usize)
        ensures
            *r == self.low(),
    {
        if self.tail < self.head {
            &self.tail
        } else {
            &self.head
        }
    }

    /// The back side of the range
    pub fn end(&self) -> (r: &usize)
        ensures
            *r == self.high(),
    {
        if self.tail < self.head {
            &self.head
        } else {
            &self.tail
        }
    }

    /// The number of bytes selected
    pub fn len(&self) -> (r: usize)
        ensures
            r == self.high() - self.low(),
    {
        if self.tail < self.head {
            self.head - self.tail
        } else {
            self.tail - self.head
        }
    }

    /// Whether the selection is for insertion, rather than replacement
    pub fn is_empty(&self) -> (r: bool)
        ensures
            r == (self.head == self.tail),
    {
        self.head == self.tail
    }

    /// Shorthand for `Range::from(self)`
    pub fn range(self) -> (r: Range<usize>)
        ensures
            r.start == self.low(),
            r.end == self.high(),
    {
        Range { start: *self.start(), end: *self.end() }
    }
}

/// The ends of a selection are its head and tail in order, and it is empty
/// exactly when they are equal, that is when it covers no bytes.
pub proof fn law_selection_ends(sel: Selection)
    ensures
        sel.low() <= sel.high(),
        (sel.low() == sel.head && sel.high() == sel.tail) || (sel.low() == sel.tail && sel.high()
            == sel.head),
        (sel.high() - sel.low() == 0) == (sel.head == sel.tail),
{
}

impl Selection {
    /// Whether `item` lies in the selected range (its start included, its end excluded)
    #[inline]
    pub fn contains(&self, item: &usize) -> (r: bool)
        ensures
            r == (self.low() <= *item && *item < self.high()),
    {
        *self.start() <= *item && *item < *self.end()
    }
}

impl IntoIterator for Selection {
    type Item = usize;

    type IntoIter = Range<usize>;

    #[inline]
    fn into_iter(self) -> (r: Range<usize>)
        ensures
            r.start == self.low(),
            r.end == self.high(),
    {
        self.range()
    }
}

impl From<Selection> for Range<usize> {
    fn from(value: Selection) -> (r: Range<usize>) {
        value.range()
    }
}

impl vstd::std_specs::convert::FromSpecImpl<Selection> for Range<usize> {
    open spec fn obeys_from_spec() -> bool {
        true
    }

    open spec fn from_spec(value: Selection) -> Range<usize> {
        Range { start: value.low(), end: value.high() }
    }
}

} // verus!
