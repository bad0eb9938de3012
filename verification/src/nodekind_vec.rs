//! A growable array of node tags with positional insert, remove and update.
//!
//! The tag array stores, for every node, which buffer the node's bytes live
//! in. Its operations must be indistinguishable, index for index, from an
//! ordinary growable list of tags; every method's contract states its effect
//! exactly in those terms. The backing store is a plain vector of tags (the
//! portable alternative to a bit-packed word array; a space optimization,
//! not a semantic difference).

use vstd::prelude::*;

use crate::nodes::NodeKind;

verus! {

/// The ordered tag column of the node store: one `NodeKind` per node.
#[derive(Debug, Clone)]
pub struct NodeKindVec {
    inner: Vec<NodeKind>,
}

impl View for NodeKindVec {
    type V = Seq<NodeKind>;

    closed spec fn view(&self) -> Seq<NodeKind> {
        self.inner@
    }
}

impl NodeKindVec {
    /// Creates an empty tag array.
    pub fn new() -> (r: Self)
        ensures
            r@ == Seq::<NodeKind>::empty(),
    {
        NodeKindVec { inner: Vec::new() }
    }

    /// Number of tags stored.
    pub fn len(&self) -> (r: usize)
        ensures
            r == self@.len(),
    {
        self.inner.len()
    }

    pub fn is_empty(&self) -> (r: bool)
        ensures
            r == (self@.len() == 0),
    {
        self.inner.len() == 0
    }

    /// Appends a tag at the end.
    pub fn push_back(&mut self, value: NodeKind)
        ensures
            final(self)@ == old(self)@.push(value),
    {
        self.inner.push(value);
    }

    /// Overwrites the tag at `idx`. Indexing past the end is a programmer
    /// error, ruled out by the precondition.
    pub fn set(&mut self, idx: usize, value: NodeKind)
        requires
            idx < old(self)@.len(),
        ensures
            final(self)@ == old(self)@.update(idx as int, value),
    {
        self.inner[idx] = value;
    }

    /// Returns the tag at `idx`, or nothing past the end.
    pub fn get(&self, idx: usize) -> (r: Option<NodeKind>)
        ensures
            r == if idx < self@.len() {
                Some(self@[idx as int])
            } else {
                None::<NodeKind>
            },
    {
        if idx < self.inner.len() {
            Some(self.inner[idx])
        } else {
            None
        }
    }

    /// Inserts `value` at `idx`, shifting every later tag one position up.
    /// Inserting at `idx == len` appends; past that is a programmer error,
    /// ruled out by the precondition.
    pub fn insert(&mut self, idx: usize, value: NodeKind)
        requires
            idx <= old(self)@.len(),
        ensures
            final(self)@ == old(self)@.insert(idx as int, value),
    {
        self.inner.insert(idx, value);
    }

    /// Duplicates the tag at `idx`: every tag from `idx` on moves one
    /// position up and position `idx` keeps its value.
    pub fn shift_right(&mut self, idx: usize)
        requires
            idx < old(self)@.len(),
        ensures
            final(self)@ == old(self)@.insert(idx as int, old(self)@[idx as int]),
    {
        let value = self.inner[idx];
        self.inner.insert(idx, value);
    }

    /// Removes the tags in `[range.start, range.end)` and compacts the tail
    /// left. A reversed or out-of-range request is clipped: nothing happens
    /// when `range.start >= range.end` or `range.start >= len`, and an end
    /// past the length is treated as the length.
    pub fn remove_range(&mut self, range: core::ops::Range<usize>)
        ensures
            final(self)@ == remove_range_spec(old(self)@, range.start as int, range.end as int),
    {
        let len = self.inner.len();
        if range.start >= range.end || range.start >= len {
            return ;
        }
        let end = if range.end < len {
            range.end
        } else {
            len
        };
        let mut i: usize = range.start;
        proof {
            assert(self.inner@ =~= old(self)@.subrange(0, range.start as int) + old(
                self,
            )@.subrange(i as int, old(self)@.len() as int));
        }
        while i < end
            invariant
                range.start <= i <= end,
                end <= old(self)@.len(),
                self.inner@ == old(self)@.subrange(0, range.start as int) + old(self)@.subrange(
                    i as int,
                    old(self)@.len() as int,
                ),
            decreases end - i,
        {
            self.inner.remove(range.start);
            proof {
                assert(self.inner@ =~= old(self)@.subrange(0, range.start as int) + old(
                    self,
                )@.subrange(i + 1, old(self)@.len() as int));
            }
            i = i + 1;
        }
        proof {
            assert(self.inner@ =~= remove_range_spec(old(self)@, range.start as int, range.end as int));
        }
    }
}

/// What removing `[start, end)` from a sequence leaves behind, with the
/// same clipping the executable `remove_range` operations apply.
pub open spec fn remove_range_spec<T>(s: Seq<T>, start: int, end: int) -> Seq<T> {
    if start >= end || start >= s.len() {
        s
    } else {
        let end_clipped = if end <= s.len() {
            end
        } else {
            s.len() as int
        };
        s.subrange(0, start) + s.subrange(end_clipped, s.len() as int)
    }
}

} // verus!
