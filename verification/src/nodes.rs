//! The node store: an ordered sequence of nodes held as a structure of
//! arrays (tag column, start column, length column), plus the locator that
//! maps a global byte offset to the node covering it.

use vstd::prelude::*;

use crate::nodekind_vec::{remove_range_spec, NodeKindVec};
use crate::text::{prefix_len, total_len};

verus! {

/// Which buffer a node's bytes are stored in.
#[derive(Debug, Clone, Copy, PartialEq, Eq, Structural)]
pub enum NodeKind {
    Original,
    Added,
}

/// A contiguous byte span of one of the two buffers: the basic piece of the
/// logical document.
#[derive(Debug, Clone, Copy, PartialEq, Eq, Structural)]
pub struct Node {
    pub kind: NodeKind,
    pub start: usize,
    pub len: usize,
}

impl Node {
    pub fn new(kind: NodeKind, start: usize, len: usize) -> (r: Node)
        ensures
            r == (Node { kind, start, len }),
    {
        Node { kind, start, len }
    }

    /// One past the last buffer offset the node designates.
    pub fn end(&self) -> (r: usize)
        requires
            self.start + self.len <= usize::MAX,
        ensures
            r == self.start + self.len,
    {
        self.start + self.len
    }

    /// The node's span within its buffer as a half-open range.
    pub fn range(&self) -> (r: core::ops::Range<usize>)
        requires
            self.start + self.len <= usize::MAX,
        ensures
            r.start == self.start,
            r.end == self.start + self.len,
    {
        self.start..self.start + self.len
    }
}

/// A handle to a node: its index in the store and the byte offset, within
/// the rendered text, of the node's first byte.
#[derive(Debug, Clone, Copy, PartialEq, Eq, Structural)]
pub struct NodeHandle {
    pub idx: usize,
    pub text_idx: usize,
}

/// All nodes of a piece table, stored as parallel columns.
#[derive(Debug, Clone)]
pub struct Nodes {
    kinds: NodeKindVec,
    starts: Vec<usize>,
    lens: Vec<usize>,
}

impl View for Nodes {
    type V = Seq<Node>;

    closed spec fn view(&self) -> Seq<Node> {
        Seq::new(
            self.lens@.len(),
            |i: int|
                Node {
                    kind: self.kinds@[i],
                    start: self.starts@[i],
                    len: self.lens@[i],
                },
        )
    }
}

impl Nodes {
    /// The three columns always describe the same number of nodes.
    pub closed spec fn wf(&self) -> bool {
        self.kinds@.len() == self.lens@.len() && self.starts@.len() == self.lens@.len()
    }

    pub fn new() -> (r: Nodes)
        ensures
            r.wf(),
            r@ == Seq::<Node>::empty(),
    {
        let r = Nodes { kinds: NodeKindVec::new(), starts: Vec::new(), lens: Vec::new() };
        proof {
            assert(r@ =~= Seq::<Node>::empty());
        }
        r
    }

    pub fn len(&self) -> (r: usize)
        requires
            self.wf(),
        ensures
            r == self@.len(),
    {
        self.starts.len()
    }

    pub fn is_empty(&self) -> (r: bool)
        requires
            self.wf(),
        ensures
            r == (self@.len() == 0),
    {
        self.starts.len() == 0
    }

    /// Overwrites the node at `idx`; indexing past the end is a programmer
    /// error, ruled out by the precondition.
    pub fn set(&mut self, idx: usize, node: Node)
        requires
            old(self).wf(),
            idx < old(self)@.len(),
        ensures
            final(self).wf(),
            final(self)@ == old(self)@.update(idx as int, node),
    {
        self.kinds.set(idx, node.kind);
        self.starts[idx] = node.start;
        self.lens[idx] = node.len;
        proof {
            assert(self@ =~= old(self)@.update(idx as int, node));
        }
    }

    /// Appends a node at the end of the store.
    pub fn push(&mut self, node: Node)
        requires
            old(self).wf(),
        ensures
            final(self).wf(),
            final(self)@ == old(self)@.push(node),
    {
        self.kinds.push_back(node.kind);
        self.starts.push(node.start);
        self.lens.push(node.len);
        proof {
            assert(self@ =~= old(self)@.push(node));
        }
    }

    pub fn push_back(&mut self, node: Node)
        requires
            old(self).wf(),
        ensures
            final(self).wf(),
            final(self)@ == old(self)@.push(node),
    {
        self.push(node);
    }

    /// Inserts a node at `idx`, shifting the rest up; `idx == len` appends.
    pub fn insert(&mut self, idx: usize, node: Node)
        requires
            old(self).wf(),
            idx <= old(self)@.len(),
        ensures
            final(self).wf(),
            final(self)@ == old(self)@.insert(idx as int, node),
    {
        self.kinds.insert(idx, node.kind);
        self.starts.insert(idx, node.start);
        self.lens.insert(idx, node.len);
        proof {
            assert(self@ =~= old(self)@.insert(idx as int, node));
        }
    }

    /// Removes the nodes in `[range.start, range.end)` from all three
    /// columns, with the same clipping as the tag array's `remove_range`.
    pub fn remove_range(&mut self, range: core::ops::Range<usize>)
        requires
            old(self).wf(),
        ensures
            final(self).wf(),
            final(self)@ == remove_range_spec(old(self)@, range.start as int, range.end as int),
    {
        self.kinds.remove_range(range.start..range.end);
        vec_remove_range(&mut self.starts, range.start, range.end);
        vec_remove_range(&mut self.lens, range.start, range.end);
        proof {
            assert(self@ =~= remove_range_spec(old(self)@, range.start as int, range.end as int));
        }
    }

    /// The length of the node at `idx`.
    pub fn len_at(&self, idx: usize) -> (r: usize)
        requires
            self.wf(),
            idx < self@.len(),
        ensures
            r == self@[idx as int].len,
    {
        self.lens[idx]
    }

    /// Maps a global byte offset to the node covering it: the first node
    /// whose cumulative span contains `offset`, together with that node's
    /// cumulative start byte. Returns nothing when `offset` is at or past
    /// the total length. The scan works in cascading granularities — lanes
    /// of 64 lengths, then 8, then single lengths — purely as a speedup;
    /// the contract pins the same unique answer a linear scan gives.
    pub fn find_node(&self, offset: usize) -> (r: Option<NodeHandle>)
        requires
            self.wf(),
            total_len(self@) <= usize::MAX,
        ensures
            match r {
                Some(h) => h.idx < self@.len() && h.text_idx == prefix_len(self@, h.idx as int)
                    && h.text_idx <= offset < h.text_idx + self@[h.idx as int].len,
                None => offset >= total_len(self@),
            },
    {
        let n = self.lens.len();
        proof {
            lemma_psum_matches_prefix_len(self.lens@, self@, n as int);
            assert(forall|i: int|
                0 <= i <= n ==> psum(self.lens@, i) == prefix_len(self@, i)) by {
                assert forall|i: int| 0 <= i <= n implies psum(self.lens@, i) == prefix_len(
                    self@,
                    i,
                ) by {
                    lemma_psum_matches_prefix_len(self.lens@, self@, i);
                }
            }
        }
        let n64 = n - n % 64;
        let h64 = match find_node_64(&self.lens, 0, n64, 0, offset) {
            NodeSearch::Found(h) => {
                return Some(h);
            },
            NodeSearch::FirstRemainingNode(h) => h,
        };
        let rem = n - n64;
        let n8 = n64 + (rem - rem % 8);
        let h8 = match find_node_8(&self.lens, n64, n8, h64.text_idx, offset) {
            NodeSearch::Found(h) => {
                return Some(h);
            },
            NodeSearch::FirstRemainingNode(h) => h,
        };
        match find_node_1(&self.lens, n8, n, h8.text_idx, offset) {
            NodeSearch::Found(h) => Some(h),
            NodeSearch::FirstRemainingNode(_) => None,
        }
    }

    /// The node list as one flat vector of node values.
    pub fn to_vec(&self) -> (r: Vec<Node>)
        requires
            self.wf(),
        ensures
            r@ == self@,
    {
        let n = self.starts.len();
        let mut r: Vec<Node> = Vec::new();
        let mut i: usize = 0;
        proof {
            assert(r@ =~= self@.take(0));
        }
        while i < n
            invariant
                self.wf(),
                i <= n == self@.len(),
                r@ == self@.take(i as int),
            decreases n - i,
        {
            let node = match self.get(i) {
                Some(node) => node,
                None => vstd::pervasive::unreached(),
            };
            r.push(node);
            proof {
                assert(r@ =~= self@.take(i + 1));
            }
            i = i + 1;
        }
        proof {
            assert(self@.take(n as int) =~= self@);
        }
        r
    }

    /// The longest prefix of the store on which all three columns have an
    /// entry: the whole list whenever the store is well formed. The
    /// comparison operators must be total, so they read the store through
    /// this.
    pub closed spec fn common_view(&self) -> Seq<Node> {
        let m = if self.kinds@.len() <= self.starts@.len() && self.kinds@.len()
            <= self.lens@.len() {
            self.kinds@.len()
        } else if self.starts@.len() <= self.lens@.len() {
            self.starts@.len()
        } else {
            self.lens@.len()
        };
        Seq::new(
            m,
            |i: int|
                Node {
                    kind: self.kinds@[i],
                    start: self.starts@[i],
                    len: self.lens@[i],
                },
        )
    }

    /// On a well-formed store the common prefix is the whole node list.
    pub proof fn lemma_common_view_complete(&self)
        requires
            self.wf(),
        ensures
            self.common_view() == self@,
    {
        assert(self.common_view() =~= self@);
    }

    /// The common-prefix node list as a flat vector, read without any
    /// well-formedness assumption.
    pub fn to_vec_total(&self) -> (r: Vec<Node>)
        ensures
            r@ == self.common_view(),
    {
        let a = self.kinds.len();
        let b = self.starts.len();
        let c = self.lens.len();
        let m = if a <= b && a <= c {
            a
        } else if b <= c {
            b
        } else {
            c
        };
        let mut r: Vec<Node> = Vec::new();
        let mut i: usize = 0;
        proof {
            assert(r@ =~= self.common_view().take(0));
        }
        while i < m
            invariant
                i <= m == self.common_view().len(),
                m <= self.kinds@.len() && m <= self.starts@.len() && m <= self.lens@.len(),
                r@ == self.common_view().take(i as int),
            decreases m - i,
        {
            let kind = match self.kinds.get(i) {
                Some(k) => k,
                None => vstd::pervasive::unreached(),
            };
            r.push(Node { kind, start: self.starts[i], len: self.lens[i] });
            proof {
                assert(r@ =~= self.common_view().take(i + 1));
            }
            i = i + 1;
        }
        proof {
            assert(self.common_view().take(m as int) =~= self.common_view());
        }
        r
    }

    /// Reconstructs the node at `idx`, or nothing past the end.
    pub fn get(&self, idx: usize) -> (r: Option<Node>)
        requires
            self.wf(),
        ensures
            r == if idx < self@.len() {
                Some(self@[idx as int])
            } else {
                None::<Node>
            },
    {
        if idx < self.starts.len() {
            let kind = match self.kinds.get(idx) {
                Some(k) => k,
                None => vstd::pervasive::unreached(),
            };
            Some(Node { kind, start: self.starts[idx], len: self.lens[idx] })
        } else {
            None
        }
    }
}

/// The result of a node search over part of the length column.
enum NodeSearch {
    /// The node covering the offset.
    Found(NodeHandle),
    /// No covered node in the searched part; the handle names the first
    /// node that was not searched and its cumulative start byte.
    FirstRemainingNode(NodeHandle),
}

/// The sum of the first `i` entries of the length column.
pub open spec fn psum(lens: Seq<usize>, i: int) -> int
    decreases i,
{
    if i <= 0 {
        0
    } else {
        psum(lens, i - 1) + lens[i - 1]
    }
}

proof fn lemma_psum_mono(lens: Seq<usize>, i: int, j: int)
    requires
        0 <= i <= j <= lens.len(),
    ensures
        psum(lens, i) <= psum(lens, j),
    decreases j,
{
    if i < j {
        lemma_psum_mono(lens, i, j - 1);
    }
}

/// The length column's prefix sums are the node list's prefix sums.
proof fn lemma_psum_matches_prefix_len(lens: Seq<usize>, ns: Seq<Node>, i: int)
    requires
        0 <= i <= ns.len(),
        lens.len() == ns.len(),
        forall|j: int| 0 <= j < ns.len() ==> (#[trigger] ns[j]).len == lens[j],
    ensures
        psum(lens, i) == prefix_len(ns, i),
    decreases i,
{
    if i > 0 {
        lemma_psum_matches_prefix_len(lens, ns, i - 1);
    }
}

/// What a partial search must report: either the covering node with its
/// cumulative start, or that everything searched ends at or before the
/// offset.
spec fn search_ok(r: NodeSearch, lens: Seq<usize>, start: int, end: int, offset: int) -> bool {
    match r {
        NodeSearch::Found(h) => {
            &&& start <= h.idx < end
            &&& h.text_idx == psum(lens, h.idx as int)
            &&& h.text_idx <= offset < h.text_idx + lens[h.idx as int]
        },
        NodeSearch::FirstRemainingNode(h) => {
            &&& h.idx == end
            &&& h.text_idx == psum(lens, end)
            &&& offset >= h.text_idx
        },
    }
}

/// The sum of `count` lengths starting at `start`.
fn block_sum(lens: &Vec<usize>, start: usize, count: usize) -> (s: usize)
    requires
        start + count <= lens@.len(),
        psum(lens@, lens@.len() as int) <= usize::MAX,
    ensures
        s == psum(lens@, start + count) - psum(lens@, start as int),
{
    let n = lens.len();
    let stop = start + count;
    let mut s: usize = 0;
    let mut i: usize = start;
    while i < stop
        invariant
            stop == start + count,
            start <= i <= stop <= lens@.len(),
            psum(lens@, lens@.len() as int) <= usize::MAX,
            s == psum(lens@, i as int) - psum(lens@, start as int),
        decreases stop - i,
    {
        proof {
            lemma_psum_mono(lens@, 0, start as int);
            lemma_psum_mono(lens@, i + 1, lens@.len() as int);
            assert(psum(lens@, i + 1) == psum(lens@, i as int) + lens@[i as int]);
        }
        s = s + lens[i];
        i = i + 1;
    }
    s
}

/// Scalar scan: walks single lengths in `[start, end)`.
fn find_node_1(lens: &Vec<usize>, start: usize, end: usize, base: usize, offset: usize) -> (r:
    NodeSearch)
    requires
        start <= end <= lens@.len(),
        psum(lens@, lens@.len() as int) <= usize::MAX,
        base == psum(lens@, start as int),
        base <= offset,
    ensures
        search_ok(r, lens@, start as int, end as int, offset as int),
{
    let mut byte_idx = base;
    let mut i = start;
    while i < end
        invariant
            start <= i <= end <= lens@.len(),
            psum(lens@, lens@.len() as int) <= usize::MAX,
            byte_idx == psum(lens@, i as int),
            byte_idx <= offset,
        decreases end - i,
    {
        proof {
            lemma_psum_mono(lens@, 0, i as int);
            lemma_psum_mono(lens@, i + 1, lens@.len() as int);
            assert(psum(lens@, i + 1) == psum(lens@, i as int) + lens@[i as int]);
        }
        let len = lens[i];
        if byte_idx + len > offset {
            return NodeSearch::Found(NodeHandle { idx: i, text_idx: byte_idx });
        }
        byte_idx = byte_idx + len;
        i = i + 1;
    }
    NodeSearch::FirstRemainingNode(NodeHandle { idx: i, text_idx: byte_idx })
}

/// Middle lane: sums lengths eight at a time and descends into the scalar
/// scan inside the lane whose cumulative sum first passes the offset.
fn find_node_8(lens: &Vec<usize>, start: usize, end: usize, base: usize, offset: usize) -> (r:
    NodeSearch)
    requires
        start <= end <= lens@.len(),
        (end - start) % 8 == 0,
        psum(lens@, lens@.len() as int) <= usize::MAX,
        base == psum(lens@, start as int),
        base <= offset,
    ensures
        search_ok(r, lens@, start as int, end as int, offset as int),
{
    let mut byte_idx = base;
    let mut i = start;
    while i < end
        invariant
            start <= i <= end <= lens@.len(),
            (end - i) % 8 == 0,
            psum(lens@, lens@.len() as int) <= usize::MAX,
            byte_idx == psum(lens@, i as int),
            byte_idx <= offset,
        decreases end - i,
    {
        let sum = block_sum(lens, i, 8);
        proof {
            lemma_psum_mono(lens@, 0, i as int);
            lemma_psum_mono(lens@, i + 8, lens@.len() as int);
        }
        if byte_idx + sum > offset {
            let r = find_node_1(lens, i, i + 8, byte_idx, offset);
            proof {
                if r matches NodeSearch::FirstRemainingNode(h) {
                    assert(offset >= psum(lens@, i + 8));
                    assert(false);
                }
            }
            return r;
        }
        byte_idx = byte_idx + sum;
        i = i + 8;
    }
    NodeSearch::FirstRemainingNode(NodeHandle { idx: i, text_idx: byte_idx })
}

/// Coarse lane: sums lengths sixty-four at a time and descends into the
/// eight-wide lane scan inside the lane whose cumulative sum first passes
/// the offset.
fn find_node_64(lens: &Vec<usize>, start: usize, end: usize, base: usize, offset: usize) -> (r:
    NodeSearch)
    requires
        start <= end <= lens@.len(),
        (end - start) % 64 == 0,
        psum(lens@, lens@.len() as int) <= usize::MAX,
        base == psum(lens@, start as int),
        base <= offset,
    ensures
        search_ok(r, lens@, start as int, end as int, offset as int),
{
    let mut byte_idx = base;
    let mut i = start;
    while i < end
        invariant
            start <= i <= end <= lens@.len(),
            (end - i) % 64 == 0,
            psum(lens@, lens@.len() as int) <= usize::MAX,
            byte_idx == psum(lens@, i as int),
            byte_idx <= offset,
        decreases end - i,
    {
        let sum = block_sum(lens, i, 64);
        proof {
            lemma_psum_mono(lens@, 0, i as int);
            lemma_psum_mono(lens@, i + 64, lens@.len() as int);
        }
        if byte_idx + sum > offset {
            let r = find_node_8(lens, i, i + 64, byte_idx, offset);
            proof {
                if r matches NodeSearch::FirstRemainingNode(h) {
                    assert(offset >= psum(lens@, i + 64));
                    assert(false);
                }
            }
            return r;
        }
        byte_idx = byte_idx + sum;
        i = i + 64;
    }
    NodeSearch::FirstRemainingNode(NodeHandle { idx: i, text_idx: byte_idx })
}

/// Removes the elements of `v` in `[start, end)`, with clipping: no-op when
/// the range is reversed or starts past the end, and `end` is capped at the
/// length.
fn vec_remove_range(v: &mut Vec<usize>, start: usize, end: usize)
    ensures
        final(v)@ == remove_range_spec(old(v)@, start as int, end as int),
{
    let len = v.len();
    if start >= end || start >= len {
        return ;
    }
    let end_clipped = if end < len {
        end
    } else {
        len
    };
    let mut i: usize = start;
    proof {
        assert(v@ =~= old(v)@.subrange(0, start as int) + old(v)@.subrange(
            i as int,
            old(v)@.len() as int,
        ));
    }
    while i < end_clipped
        invariant
            start <= i <= end_clipped,
            end_clipped <= old(v)@.len(),
            v@ == old(v)@.subrange(0, start as int) + old(v)@.subrange(
                i as int,
                old(v)@.len() as int,
            ),
        decreases end_clipped - i,
    {
        v.remove(start);
        proof {
            assert(v@ =~= old(v)@.subrange(0, start as int) + old(v)@.subrange(
                i + 1,
                old(v)@.len() as int,
            ));
        }
        i = i + 1;
    }
    proof {
        assert(v@ =~= remove_range_spec(old(v)@, start as int, end as int));
    }
}

} // verus!
