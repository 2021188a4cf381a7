use vstd::prelude::*;

verus! {

/// A closed interval `[start, end]` of element indices, used both for query
/// arguments and for the segment owned by one tree node.
#[derive(Debug, Clone, Copy, PartialEq, Eq, Structural)]
pub struct Range {
    pub start: usize,
    pub end: usize,
}

impl Range {
    pub fn new(start: usize, end: usize) -> (r: Range)
        ensures
            r.start == start,
            r.end == end,
    {
        Range { start, end }
    }

    /// True when `self` fully covers `other`.
    pub fn total_overlap(&self, other: Range) -> (r: bool)
        ensures
            r == (self.start <= other.start && other.end <= self.end),
    {
        self.start <= other.start && self.end >= other.end
    }

    pub fn size(&self) -> (r: usize)
        requires
            self.start <= self.end,
            self.end - self.start < usize::MAX,
        ensures
            r == self.end - self.start + 1,
    {
        self.end - self.start + 1
    }

    pub fn is_single_point(&self) -> (r: bool)
        requires
            self.start <= self.end,
            self.end - self.start < usize::MAX,
        ensures
            r == (self.start == self.end),
    {
        self.size() == 1
    }

    pub fn intersect(&self, other: Range) -> (r: Range)
        ensures
            r.start == (if self.start >= other.start { self.start } else { other.start }),
            r.end == (if self.end <= other.end { self.end } else { other.end }),
    {
        let s = if self.start >= other.start { self.start } else { other.start };
        let e = if self.end <= other.end { self.end } else { other.end };
        Range::new(s, e)
    }

    /// True when the two intervals are disjoint.
    pub fn no_overlap(&self, other: Range) -> (r: bool)
        ensures
            r == (self.end < other.start || other.end < self.start),
    {
        self.end < other.start || other.end < self.start
    }

    /// Floor midpoint of the interval.
    pub fn middle(&self) -> (r: usize)
        requires
            self.start <= self.end,
        ensures
            r == (self.start + self.end) / 2,
            self.start <= r <= self.end,
            self.start < self.end ==> r < self.end,
    {
        self.start + ((self.end - self.start) / 2)
    }
}

/// Implicit-layout child addressing: the left child sits right after its
/// father, and the right child follows the whole left subtree, which holds
/// `2 * num_leaf_left_subtree - 1` slots, leaves included.
pub fn left_right_child_index(node_segment: Range, father_index: usize) -> (r: (usize, usize))
    requires
        node_segment.start < node_segment.end,
        father_index + 2 * (node_segment.end - node_segment.start) < usize::MAX,
    ensures
        r.0 == father_index + 1,
        r.1 == father_index + 2 * ((node_segment.start + node_segment.end) / 2 - node_segment.start + 1),
{
    let middle = node_segment.middle();
    let num_leaf_left_subtree = middle - node_segment.start + 1;
    let left_child_index = father_index + 1;
    let right_child_index = father_index + 2 * num_leaf_left_subtree;
    (left_child_index, right_child_index)
}

} // verus!
