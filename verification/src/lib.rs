//! A piece table: an in-memory editable text buffer for editor-style
//! workloads. The original text stays immutable, every insertion is appended
//! to a second buffer, and the logical document is an ordered list of nodes,
//! each referencing a contiguous byte span of one of the two buffers.
//! Mutation only ever appends to the added buffer and edits node metadata,
//! so snapshots of the document can share the buffers instead of copying
//! text.

pub mod baseline;
pub mod interface;
pub mod nodekind_vec;
pub mod nodes;
pub mod text;

use std::rc::Rc;

use vstd::prelude::*;

use crate::nodes::{Node, NodeKind, Nodes};
use crate::text::{
    buffer_of, char_bytes, clamp_mid, clip, copy_bytes, lemma_covering_unique, lemma_delete_tail,
    lemma_delete_trim, lemma_lex_cmp_skip_prefix, lemma_prefix_len_mono,
    lemma_render_buffer_extend, lemma_render_byte_at, lemma_render_concat, lemma_render_insert,
    lemma_lex_cmp_equal_iff, lemma_render_len, lemma_render_singleton, lemma_render_take_skip,
    lemma_clip_push, lemma_render_total_matches_render, lemma_render_total_push,
    lemma_split_preserves_render, lex_cmp, node_bytes, node_bytes_total, node_in_bounds,
    nodes_in_bounds, prefix_len, render, render_total, spec_bytes_of, spec_delete, spec_insert,
    spec_replace, split_at_spec, total_len,
};
use vstd::std_specs::cmp::{PartialEqSpec, PartialOrdSpec};

verus! {

/// A piece table: original buffer, append-only added buffer, and the node
/// list describing the current document.
///
/// # Invariants
/// - The original buffer is set at construction and never changes.
/// - The added buffer only ever grows; bytes once appended are never
///   rewritten, so a node range into it stays valid forever.
/// - Concatenating the spans the nodes designate, in order, yields exactly
///   the current document, and the cached length equals both the sum of the
///   node lengths and the number of rendered bytes.
#[derive(Debug, Clone)]
pub struct PieceTable {
    original: Rc<Vec<u8>>,
    added: Vec<u8>,
    nodes: Nodes,
    total: usize,
}

impl View for PieceTable {
    type V = Seq<u8>;

    /// The document the table currently represents, as bytes.
    closed spec fn view(&self) -> Seq<u8> {
        render(self.nodes@, self.original@, self.added@)
    }
}

impl PieceTable {
    /// The structural invariant: parallel columns agree, every node points
    /// into its buffer, and the cached total equals the sum of the node
    /// lengths, which is the rendered length.
    pub closed spec fn wf(&self) -> bool {
        &&& self.nodes.wf()
        &&& nodes_in_bounds(self.nodes@, self.original@, self.added@)
        &&& total_len(self.nodes@) == self.total
        &&& self@.len() == self.total
    }

    /// Creates a piece table whose document is `string`: one original node
    /// spanning the whole text.
    pub fn new(string: &str) -> (r: PieceTable)
        ensures
            r.wf(),
            r@ == spec_bytes_of(string),
    {
        let bytes = vstd::slice::slice_to_vec(string.as_bytes());
        let len = bytes.len();
        let mut nodes = Nodes::new();
        nodes.push(Node { kind: NodeKind::Original, start: 0, len });
        let r = PieceTable { original: Rc::new(bytes), added: Vec::new(), nodes, total: len };
        proof {
            let ns = r.nodes@;
            assert(ns == Seq::<Node>::empty().push(Node { kind: NodeKind::Original, start: 0, len }));
            assert(ns =~= seq![Node { kind: NodeKind::Original, start: 0, len }]);
            lemma_render_singleton(ns[0], r.original@, r.added@);
            assert(node_bytes(ns[0], r.original@, r.added@) =~= spec_bytes_of(string));
            assert(total_len(ns) == prefix_len(ns, 0) + ns[0].len);
        }
        r
    }

    /// The sum of the lengths of all nodes in the table's node list.
    pub closed spec fn sum_of_node_lens(&self) -> int {
        total_len(self.nodes@)
    }

    /// The text the comparison operators compare: the table rendered
    /// totally, with the node columns read on their common prefix and each
    /// node's span clipped to its buffer. On a well-formed table this is
    /// the document itself.
    pub closed spec fn text_total(&self) -> Seq<u8> {
        render_total(self.nodes.common_view(), self.original@, self.added@)
    }

    /// The total rendering the comparison operators use.
    fn to_bytes_total(&self) -> (r: Vec<u8>)
        ensures
            r@ == self.text_total(),
    {
        let nodes = self.nodes.to_vec_total();
        render_nodes_total(&nodes, rc_bytes(&self.original), &self.added)
    }

    /// How many nodes the table's node list currently holds.
    pub closed spec fn spec_node_count(&self) -> nat {
        self.nodes@.len()
    }

    /// The number of nodes the document is currently pieced together from.
    pub fn node_count(&self) -> (r: usize)
        requires
            self.wf(),
        ensures
            r == self.spec_node_count(),
    {
        self.nodes.len()
    }

    /// The total length of the document, in bytes.
    pub fn len(&self) -> (r: usize)
        requires
            self.wf(),
        ensures
            r == self@.len(),
    {
        self.total
    }

    /// Whether the document holds no text.
    pub fn is_empty(&self) -> (r: bool)
        requires
            self.wf(),
        ensures
            r == (self@.len() == 0),
    {
        self.total == 0
    }

    /// Finds the node covering byte `offset`: its index and the byte offset
    /// at which it starts. Nothing when `offset` is at or past the end.
    fn find_node(&self, offset: usize) -> (r: Option<(usize, usize)>)
        requires
            self.wf(),
        ensures
            match r {
                Some((idx, pos)) => idx < self.nodes@.len() && pos == prefix_len(
                    self.nodes@,
                    idx as int,
                ) && pos <= offset < pos + self.nodes@[idx as int].len,
                None => offset >= self@.len(),
            },
    {
        match self.nodes.find_node(offset) {
            Some(h) => Some((h.idx, h.text_idx)),
            None => None,
        }
    }

    /// The byte at offset `at`, or nothing when `at` is at or past the end.
    pub fn byte(&self, at: usize) -> (r: Option<u8>)
        requires
            self.wf(),
        ensures
            r == if at < self@.len() {
                Some(self@[at as int])
            } else {
                None::<u8>
            },
    {
        match self.find_node(at) {
            Some((idx, pos)) => {
                let node = match self.nodes.get(idx) {
                    Some(n) => n,
                    None => vstd::pervasive::unreached(),
                };
                let local = at - pos;
                proof {
                    lemma_render_byte_at(
                        self.nodes@,
                        idx as int,
                        local as int,
                        self.original@,
                        self.added@,
                    );
                    assert(node_in_bounds(node, self.original@, self.added@));
                }
                let b = match node.kind {
                    NodeKind::Original => {
                        let buf: &Vec<u8> = rc_bytes(&self.original);
                        let blen = buf.len();
                        assert(node.start + local < blen);
                        buf[node.start + local]
                    },
                    NodeKind::Added => {
                        let blen = self.added.len();
                        assert(node.start + local < blen);
                        self.added[node.start + local]
                    },
                };
                Some(b)
            },
            None => None,
        }
    }

    /// The current document as a byte vector.
    pub fn to_bytes(&self) -> (r: Vec<u8>)
        requires
            self.wf(),
        ensures
            r@ == self@,
    {
        let nodes = self.nodes.to_vec();
        render_nodes_bytes(&nodes, rc_bytes(&self.original), &self.added)
    }

    /// The current document as a string. The document must be valid UTF-8:
    /// byte-addressed edits can split a multi-byte character, and such a
    /// document has no textual form.
    pub fn to_string(&self) -> (r: String)
        requires
            self.wf(),
            vstd::utf8::valid_utf8(self@),
        ensures
            vstd::utf8::encode_utf8(r@) == self@,
    {
        let bytes = self.to_bytes();
        match string_from_bytes(bytes) {
            Some(s) => s,
            None => vstd::pervasive::unreached(),
        }
    }

    /// What `char` returns: at a covered offset, the character whose UTF-8
    /// encoding begins at the corresponding position of the covering
    /// node's buffer — the lookup reads the buffer from that position on,
    /// not the document — or nothing when no well-formed encoding starts
    /// there. Nothing at an uncovered offset.
    pub closed spec fn char_spec(&self, at: int) -> Option<char> {
        if 0 <= at < self@.len() {
            let i = choose|i: int|
                0 <= i < self.nodes@.len() && #[trigger] prefix_len(self.nodes@, i) <= at
                    < prefix_len(self.nodes@, i) + self.nodes@[i].len;
            let node = self.nodes@[i];
            let buf = buffer_of(node, self.original@, self.added@);
            let tail = buf.subrange(node.start + (at - prefix_len(self.nodes@, i)), buf.len() as int);
            if vstd::utf8::valid_first_scalar(tail) {
                Some(vstd::utf8::decode_first_scalar(tail) as char)
            } else {
                None
            }
        } else {
            None
        }
    }

    /// The character whose UTF-8 encoding starts at byte `at`, read from
    /// the covering node's buffer; nothing when `at` is at or past the end
    /// or when no well-formed encoding starts there.
    pub fn char(&self, at: usize) -> (r: Option<char>)
        requires
            self.wf(),
        ensures
            r == self.char_spec(at as int),
            at >= self@.len() ==> r is None,
    {
        match self.find_node(at) {
            Some((idx, pos)) => {
                let node = match self.nodes.get(idx) {
                    Some(n) => n,
                    None => vstd::pervasive::unreached(),
                };
                let local = at - pos;
                proof {
                    lemma_render_len(self.nodes@, self.original@, self.added@);
                    lemma_prefix_len_mono(self.nodes@, idx + 1, self.nodes@.len() as int);
                    assert(prefix_len(self.nodes@, idx + 1) == pos + node.len);
                    assert(at < self@.len());
                    let ghost i2 = choose|i: int|
                        0 <= i < self.nodes@.len() && #[trigger] prefix_len(self.nodes@, i) <= at
                            < prefix_len(self.nodes@, i) + self.nodes@[i].len;
                    assert(0 <= idx < self.nodes@.len() && prefix_len(self.nodes@, idx as int)
                        <= at < prefix_len(self.nodes@, idx as int) + self.nodes@[idx as int].len);
                    lemma_covering_unique(self.nodes@, at as int, idx as int, i2);
                    assert(node_in_bounds(node, self.original@, self.added@));
                }
                let buf: &Vec<u8> = match node.kind {
                    NodeKind::Original => rc_bytes(&self.original),
                    NodeKind::Added => &self.added,
                };
                let blen = buf.len();
                proof {
                    assert(node.start + node.len <= blen);
                }
                decode_char_at(buf, node.start + local)
            },
            None => None,
        }
    }

    /// Captures the whole current document as an immutable snapshot: the
    /// node list is copied verbatim alongside shared handles to the
    /// buffers. Subsequent mutation of the table leaves the snapshot
    /// untouched.
    pub fn create_slice(&self) -> (r: PTableSlice)
        requires
            self.wf(),
        ensures
            r.wf(),
            r@ == self@,
    {
        let nodes = self.nodes.to_vec();
        let added_copy = copy_bytes(&self.added, 0, self.added.len());
        proof {
            assert(added_copy@ =~= self.added@);
        }
        PTableSlice { nodes, original: Rc::clone(&self.original), added: Rc::new(added_copy) }
    }

    /// Captures the byte range `[range.start, range.end)` of the current
    /// document as an immutable snapshot, clipping the intersecting nodes
    /// to the range; the range is clamped to the document. Subsequent
    /// mutation of the table leaves the snapshot untouched.
    pub fn slice(&self, range: core::ops::Range<usize>) -> (r: PTableSlice)
        requires
            self.wf(),
        ensures
            r.wf(),
            r@ == clip(self@, range.start as int, range.end as int),
    {
        let total = self.total;
        let lo = if range.start < total {
            range.start
        } else {
            total
        };
        let mut hi = if range.end < total {
            range.end
        } else {
            total
        };
        if hi < lo {
            hi = lo;
        }
        proof {
            lemma_render_len(self.nodes@, self.original@, self.added@);
            assert(clip(self@, range.start as int, range.end as int) =~= self@.subrange(
                lo as int,
                hi as int,
            ));
        }
        let nodes = self.nodes.to_vec();
        let blen = self.added.len();
        let olen = rc_bytes(&self.original).len();
        let clipped = clip_node_list(&nodes, lo, hi, Ghost(self.original@), Ghost(self.added@));
        let added_copy = copy_bytes(&self.added, 0, blen);
        proof {
            assert(added_copy@ =~= self.added@);
        }
        PTableSlice { nodes: clipped, original: Rc::clone(&self.original), added: Rc::new(added_copy) }
    }

    /// Tries to split the node at `idx` at byte `local` within it, so the
    /// split point becomes a node boundary. Nothing happens — and `false`
    /// comes back — when `local` is zero or at the node's end, because the
    /// insertion point is a boundary already.
    fn split_node(&mut self, idx: usize, local: usize) -> (r: bool)
        requires
            old(self).wf(),
            idx < old(self).nodes@.len(),
            local <= old(self).nodes@[idx as int].len,
        ensures
            final(self).wf(),
            final(self).original == old(self).original,
            final(self).added == old(self).added,
            final(self).total == old(self).total,
            final(self)@ == old(self)@,
            r == (0 < local < old(self).nodes@[idx as int].len),
            !r ==> final(self).nodes@ == old(self).nodes@,
            r ==> final(self).nodes@ == split_at_spec(old(self).nodes@, idx as int, local as int),
            r ==> prefix_len(final(self).nodes@, idx + 1) == prefix_len(
                old(self).nodes@,
                idx as int,
            ) + local,
    {
        let node = match self.nodes.get(idx) {
            Some(n) => n,
            None => vstd::pervasive::unreached(),
        };
        if local == 0 {
            false
        } else if node.len > local {
            let bound = match node.kind {
                NodeKind::Original => rc_bytes(&self.original).len(),
                NodeKind::Added => self.added.len(),
            };
            proof {
                assert(node_in_bounds(node, self.original@, self.added@));
                assert(node.start + node.len <= bound);
            }
            let first = Node { kind: node.kind, start: node.start, len: local };
            let second = Node {
                kind: node.kind,
                start: node.start + local,
                len: node.len - local,
            };
            let nlen = self.nodes.len();
            self.nodes.set(idx, first);
            self.nodes.insert(idx + 1, second);
            proof {
                lemma_split_preserves_render(
                    old(self).nodes@,
                    idx as int,
                    local as int,
                    self.original@,
                    self.added@,
                );
                assert(self.nodes@ =~= split_at_spec(old(self).nodes@, idx as int, local as int));
            }
            true
        } else {
            false
        }
    }

    /// Splices `bytes` into the document at `offset`: appends them to the
    /// added buffer, then places one new node for them at the right spot in
    /// the node list, splitting the covering node when the offset falls
    /// inside one. An offset at or past the end appends.
    fn insert_bytes(&mut self, bytes: &[u8], offset: usize)
        requires
            old(self).wf(),
            old(self)@.len() + bytes@.len() <= usize::MAX,
        ensures
            final(self).wf(),
            final(self)@ == spec_insert(old(self)@, bytes@, offset as int),
    {
        let data_len = bytes.len();
        let start_in_added = self.added.len();
        let mut k: usize = 0;
        while k < data_len
            invariant
                k <= data_len == bytes@.len(),
                self.original == old(self).original,
                self.nodes == old(self).nodes,
                self.total == old(self).total,
                self.added@ == old(self).added@ + bytes@.subrange(0, k as int),
            decreases data_len - k,
        {
            self.added.push(bytes[k]);
            proof {
                assert(self.added@ =~= old(self).added@ + bytes@.subrange(0, k + 1));
            }
            k = k + 1;
        }
        proof {
            assert(self.added@ =~= old(self).added@ + bytes@);
            assert(self.added@.subrange(0, old(self).added@.len() as int) =~= old(self).added@);
            lemma_render_buffer_extend(
                self.nodes@,
                self.original@,
                old(self).added@,
                self.added@,
            );
            assert(self.wf());
        }
        let node = Node { kind: NodeKind::Added, start: start_in_added, len: data_len };
        proof {
            assert(node_bytes(node, self.original@, self.added@) =~= bytes@);
        }
        let ghost t = self@;
        match self.find_node(offset) {
            Some((idx, pos)) => {
                let did = self.split_node(idx, offset - pos);
                let nlen = self.nodes.len();
                let at = if did {
                    proof {
                        assert(idx < nlen);
                    }
                    idx + 1
                } else {
                    idx
                };
                proof {
                    assert(prefix_len(self.nodes@, at as int) == offset);
                    assert(at <= self.nodes@.len()) by {
                        if did {
                            assert(self.nodes@.len() == old(self).nodes@.len() + 1);
                        }
                    }
                }
                let ghost ns = self.nodes@;
                self.nodes.insert(at, node);
                proof {
                    lemma_render_insert(ns, at as int, node, self.original@, self.added@);
                    lemma_render_take_skip(ns, at as int, self.original@, self.added@);
                    assert(render(self.nodes@, self.original@, self.added@) == t.subrange(
                        0,
                        offset as int,
                    ) + bytes@ + t.subrange(offset as int, t.len() as int));
                    assert(self@ =~= spec_insert(t, bytes@, offset as int));
                    lemma_render_len(self.nodes@, self.original@, self.added@);
                    assert(nodes_in_bounds(self.nodes@, self.original@, self.added@)) by {
                        assert(forall|j: int|
                            0 <= j < self.nodes@.len() ==> (j != at ==> #[trigger] self.nodes@[j]
                                == if j < at {
                                ns[j]
                            } else {
                                ns[j - 1]
                            }));
                        assert(node_in_bounds(node, self.original@, self.added@));
                    }
                }
            },
            None => {
                let ghost ns = self.nodes@;
                self.nodes.push_back(node);
                proof {
                    assert(self.nodes@ =~= ns + seq![node]);
                    lemma_render_concat(ns, seq![node], self.original@, self.added@);
                    lemma_render_singleton(node, self.original@, self.added@);
                    assert(self@ =~= spec_insert(t, bytes@, offset as int));
                    lemma_render_len(self.nodes@, self.original@, self.added@);
                    assert(nodes_in_bounds(self.nodes@, self.original@, self.added@)) by {
                        assert(forall|j: int|
                            0 <= j < ns.len() ==> #[trigger] self.nodes@[j] == ns[j]);
                        assert(node_in_bounds(node, self.original@, self.added@));
                    }
                }
            },
        }
        self.total = self.total + data_len;
    }

    /// Removes every node whose whole cumulative span lies inside the
    /// deletion range, scanning forward from node `idx`, whose cumulative
    /// start byte is `byte_idx`. Nodes only partly covered are left for the
    /// caller. Returns the index (in the list as it was) of the first node
    /// kept, and its cumulative start byte; the caller restores the length
    /// bookkeeping.
    fn delete_complete_nodes(&mut self, idx: usize, byte_idx: usize, end: usize) -> (r: (
        usize,
        usize,
    ))
        requires
            old(self).wf(),
            idx <= old(self).nodes@.len(),
            byte_idx == prefix_len(old(self).nodes@, idx as int),
            byte_idx <= end,
            end <= total_len(old(self).nodes@),
        ensures
            final(self).original == old(self).original,
            final(self).added == old(self).added,
            final(self).total == old(self).total,
            final(self).nodes.wf(),
            idx <= r.0 <= old(self).nodes@.len(),
            r.1 == prefix_len(old(self).nodes@, r.0 as int),
            r.1 <= end,
            r.0 < old(self).nodes@.len() ==> r.1 + old(self).nodes@[r.0 as int].len > end,
            r.0 == old(self).nodes@.len() ==> r.1 == total_len(old(self).nodes@),
            final(self).nodes@ == old(self).nodes@.subrange(0, idx as int) + old(
                self,
            ).nodes@.subrange(r.0 as int, old(self).nodes@.len() as int),
    {
        let ghost ns = self.nodes@;
        let n = self.nodes.len();
        proof {
            assert forall|k: int| 0 <= k < n implies prefix_len(ns, k) + ns[k].len <= total_len(
                ns,
            ) by {
                assert(prefix_len(ns, k + 1) == prefix_len(ns, k) + ns[k].len);
                lemma_prefix_len_mono(ns, k + 1, n as int);
            }
            lemma_render_len(ns, self.original@, self.added@);
        }
        let mut j = idx;
        let mut cum = byte_idx;
        while j < n && cum + self.nodes.len_at(j) <= end
            invariant
                idx <= j <= n,
                n == ns.len(),
                self == old(self),
                self.wf(),
                ns == self.nodes@,
                cum == prefix_len(ns, j as int),
                cum <= end,
                end <= total_len(ns) <= usize::MAX,
                forall|k: int| 0 <= k < n ==> prefix_len(ns, k) + ns[k].len <= total_len(ns),
            decreases n - j,
        {
            let l = self.nodes.len_at(j);
            proof {
                assert(prefix_len(ns, j + 1) == prefix_len(ns, j as int) + l);
            }
            cum = cum + l;
            j = j + 1;
        }
        self.nodes.remove_range(idx..j);
        proof {
            assert(self.nodes@ =~= ns.subrange(0, idx as int) + ns.subrange(
                j as int,
                ns.len() as int,
            ));
        }
        (j, cum)
    }

    /// Deletes the bytes in `[range.start, range.end)`. Deletion never
    /// touches either buffer: nodes fully inside the range are removed and
    /// the nodes at the range's edges are split or trimmed.
    #[verifier::rlimit(80)]
    pub fn delete(&mut self, range: core::ops::Range<usize>)
        requires
            old(self).wf(),
            range.start <= range.end <= old(self)@.len(),
        ensures
            final(self).wf(),
            final(self)@ == spec_delete(old(self)@, range.start as int, range.end as int),
    {
        let ghost t = self@;
        let width = range.end - range.start;
        match self.find_node(range.start) {
            Some((idx, pos)) => {
                let did = self.split_node(idx, range.start - pos);
                let nlen1 = self.nodes.len();
                let first = if did {
                    proof {
                        assert(idx < nlen1);
                    }
                    idx + 1
                } else {
                    idx
                };
                let ghost ns1 = self.nodes@;
                proof {
                    assert(prefix_len(ns1, first as int) == range.start);
                    lemma_render_len(ns1, self.original@, self.added@);
                    lemma_prefix_len_mono(ns1, first as int, ns1.len() as int);
                }
                let (j, cum) = self.delete_complete_nodes(first, range.start, range.end);
                let ghost ns2 = self.nodes@;
                if j < nlen1 {
                    let node = match self.nodes.get(first) {
                        Some(n) => n,
                        None => vstd::pervasive::unreached(),
                    };
                    proof {
                        assert(node == ns1[j as int]);
                    }
                    let w = range.end - cum;
                    let bound = match node.kind {
                        NodeKind::Original => rc_bytes(&self.original).len(),
                        NodeKind::Added => self.added.len(),
                    };
                    proof {
                        assert(node_in_bounds(node, self.original@, self.added@));
                        assert(node.start + node.len <= bound);
                        assert(w < node.len);
                    }
                    let trimmed = Node {
                        kind: node.kind,
                        start: node.start + w,
                        len: node.len - w,
                    };
                    self.nodes.set(first, trimmed);
                    proof {
                        lemma_delete_trim(
                            ns1,
                            first as int,
                            j as int,
                            range.start as int,
                            range.end as int,
                            trimmed,
                            self.original@,
                            self.added@,
                        );
                        assert(self.nodes@ == ns2.update(first as int, trimmed));
                    }
                } else {
                    proof {
                        assert(cum == total_len(ns1));
                        assert(j == ns1.len());
                        lemma_delete_tail(
                            ns1,
                            first as int,
                            range.start as int,
                            self.original@,
                            self.added@,
                        );
                        assert(cum <= range.end <= t.len() && cum == t.len());
                        assert(range.end == t.len());
                    }
                }
                self.total = self.total - width;
            },
            None => {
                proof {
                    assert(range.start == t.len() && range.end == t.len());
                    assert(spec_delete(t, range.start as int, range.end as int) =~= t);
                }
                self.total = self.total - width;
            },
        }
    }

    /// Inserts `data` at byte `offset`; an offset at or past the end
    /// appends.
    pub fn insert(&mut self, data: &str, offset: usize)
        requires
            old(self).wf(),
            old(self)@.len() + spec_bytes_of(data).len() <= usize::MAX,
        ensures
            final(self).wf(),
            final(self)@ == spec_insert(old(self)@, spec_bytes_of(data), offset as int),
    {
        self.insert_bytes(data.as_bytes(), offset);
    }

    /// Replaces the bytes from `offset` up to `offset + data.len()`,
    /// clamped to the end of the document, with `data`: a delete followed
    /// by an insert, deliberately two steps rather than an atomic splice.
    pub fn replace(&mut self, data: &str, offset: usize)
        requires
            old(self).wf(),
            offset <= old(self)@.len(),
            old(self)@.len() + spec_bytes_of(data).len() <= usize::MAX,
        ensures
            final(self).wf(),
            final(self)@ == spec_replace(old(self)@, spec_bytes_of(data), offset as int),
    {
        let ghost t = self@;
        let ghost d = spec_bytes_of(data);
        let dlen = data.len();
        let cur = self.len();
        let end = if dlen > cur - offset {
            cur
        } else {
            offset + dlen
        };
        self.delete(offset..end);
        self.insert(data, offset);
        proof {
            let t1 = spec_delete(t, offset as int, end as int);
            assert(offset <= t1.len());
            assert(self@ =~= spec_replace(t, d, offset as int));
        }
    }

    /// Inserts a single character at byte `offset`; an offset at or past
    /// the end appends.
    pub fn insert_char(&mut self, offset: usize, c: char)
        requires
            old(self).wf(),
            old(self)@.len() + char_bytes(c).len() <= usize::MAX,
        ensures
            final(self).wf(),
            final(self)@ == spec_insert(old(self)@, char_bytes(c), offset as int),
    {
        let encoded = encode_char(c);
        self.insert_bytes(encoded.as_slice(), offset);
    }
}

/// The UTF-8 encoding of one character, as bytes.
fn encode_char(c: char) -> (r: Vec<u8>)
    ensures
        r@ == char_bytes(c),
{
    let u = c as u32;
    proof {
        vstd::utf8::char_is_scalar(c);
    }
    let mut r: Vec<u8> = Vec::new();
    if u <= 0x7F {
        r.push((u & 0x7F) as u8);
    } else if u <= 0x7FF {
        r.push(0xC0 | ((u >> 6) & 0x1F) as u8);
        r.push(0x80 | (u & 0x3F) as u8);
    } else if u <= 0xFFFF {
        r.push(0xE0 | ((u >> 12) & 0x0F) as u8);
        r.push(0x80 | ((u >> 6) & 0x3F) as u8);
        r.push(0x80 | (u & 0x3F) as u8);
    } else {
        r.push(0xF0 | ((u >> 18) & 0x7) as u8);
        r.push(0x80 | ((u >> 12) & 0x3F) as u8);
        r.push(0x80 | ((u >> 6) & 0x3F) as u8);
        r.push(0x80 | (u & 0x3F) as u8);
    }
    proof {
        assert(r@ =~= char_bytes(c));
    }
    r
}

impl crate::interface::EditableText for PieceTable {
    open spec fn text(&self) -> Seq<u8> {
        self@
    }

    open spec fn inv(&self) -> bool {
        self.wf()
    }

    fn new(string: &str) -> (r: Self) {
        PieceTable::new(string)
    }

    fn insert(&mut self, data: &str, offset: usize) {
        let ghost t = self@;
        self.insert(data, offset);
        proof {
            assert(self@ =~= t.subrange(0, offset as int) + spec_bytes_of(data) + t.subrange(
                offset as int,
                t.len() as int,
            ));
        }
    }

    fn delete(&mut self, range: core::ops::Range<usize>) {
        self.delete(range);
    }
}

/// An immutable snapshot of a piece table's content: its own frozen node
/// list over shared handles to the buffers. Later mutation of the table
/// never reaches a snapshot — the snapshot never reads the table's node
/// store again, only the buffers through its own frozen nodes — so its
/// rendered text is fixed at creation.
#[derive(Debug)]
pub struct PTableSlice {
    nodes: Vec<Node>,
    original: Rc<Vec<u8>>,
    added: Rc<Vec<u8>>,
}

impl View for PTableSlice {
    type V = Seq<u8>;

    /// The text the snapshot holds, as bytes.
    closed spec fn view(&self) -> Seq<u8> {
        render(self.nodes@, self.original@, self.added@)
    }
}

impl PTableSlice {
    /// The snapshot's structural invariant: every node points into its
    /// buffer and the node lengths sum to a machine-representable size.
    pub closed spec fn wf(&self) -> bool {
        &&& nodes_in_bounds(self.nodes@, self.original@, self.added@)
        &&& total_len(self.nodes@) <= usize::MAX
    }

    /// The total length of the snapshot's text, in bytes: the sum of its
    /// node lengths.
    pub fn len(&self) -> (r: usize)
        requires
            self.wf(),
        ensures
            r == self@.len(),
    {
        let ghost ns = self.nodes@;
        let n = self.nodes.len();
        proof {
            lemma_render_len(ns, self.original@, self.added@);
            assert forall|k: int| 0 <= k < n implies prefix_len(ns, k) + ns[k].len <= total_len(
                ns,
            ) by {
                assert(prefix_len(ns, k + 1) == prefix_len(ns, k) + ns[k].len);
                lemma_prefix_len_mono(ns, k + 1, n as int);
            }
        }
        let mut sum: usize = 0;
        let mut i: usize = 0;
        while i < n
            invariant
                i <= n == ns.len(),
                sum == prefix_len(ns, i as int),
                total_len(ns) <= usize::MAX,
                forall|k: int| 0 <= k < n ==> prefix_len(ns, k) + ns[k].len <= total_len(ns),
                ns == self.nodes@,
            decreases n - i,
        {
            proof {
                assert(prefix_len(ns, i + 1) == prefix_len(ns, i as int) + ns[i as int].len);
            }
            sum = sum + self.nodes[i].len;
            i = i + 1;
        }
        sum
    }

    /// Whether the snapshot holds no text.
    pub fn is_empty(&self) -> (r: bool)
        requires
            self.wf(),
        ensures
            r == (self@.len() == 0),
    {
        self.len() == 0
    }

    /// Clips this snapshot to `[range.start, range.end)`, interpreted
    /// relative to the snapshot, giving another independent, equally frozen
    /// snapshot; an end past the snapshot's length is treated as the
    /// length. Returns nothing when the requested text is empty.
    pub fn slice(&self, range: core::ops::Range<usize>) -> (r: Option<PTableSlice>)
        requires
            self.wf(),
            range.start <= range.end,
        ensures
            match r {
                Some(s) => s.wf() && s@ == clip(self@, range.start as int, range.end as int)
                    && s@.len() > 0,
                None => clip(self@, range.start as int, range.end as int).len() == 0,
            },
    {
        let total = self.len();
        let lo = if range.start < total {
            range.start
        } else {
            total
        };
        let hi = if range.end < total {
            range.end
        } else {
            total
        };
        let olen = rc_bytes(&self.original).len();
        let alen = rc_bytes(&self.added).len();
        proof {
            lemma_render_len(self.nodes@, self.original@, self.added@);
            assert(clip(self@, range.start as int, range.end as int) =~= self@.subrange(
                lo as int,
                hi as int,
            ));
        }
        let clipped = clip_node_list(
            &self.nodes,
            lo,
            hi,
            Ghost(self.original@),
            Ghost(self.added@),
        );
        if clipped.len() == 0 {
            None
        } else {
            Some(
                PTableSlice {
                    nodes: clipped,
                    original: Rc::clone(&self.original),
                    added: Rc::clone(&self.added),
                },
            )
        }
    }

    /// The snapshot's text as a byte vector.
    pub fn to_bytes(&self) -> (r: Vec<u8>)
        requires
            self.wf(),
        ensures
            r@ == self@,
    {
        render_nodes_bytes(&self.nodes, rc_bytes(&self.original), rc_bytes(&self.added))
    }

    /// The snapshot's text as a string. The text must be valid UTF-8: a
    /// byte-addressed slice can split a multi-byte character, and such a
    /// text has no string form.
    pub fn to_string(&self) -> (r: String)
        requires
            self.wf(),
            vstd::utf8::valid_utf8(self@),
        ensures
            vstd::utf8::encode_utf8(r@) == self@,
    {
        let bytes = self.to_bytes();
        match string_from_bytes(bytes) {
            Some(s) => s,
            None => vstd::pervasive::unreached(),
        }
    }
}

/// Collects, in order, a clipped copy of every node whose span intersects
/// the text window `[lo, hi)`: the first and last intersecting nodes are
/// trimmed to the window, nodes inside it are copied unchanged, nodes
/// outside it are skipped.
#[verifier::rlimit(90)]
fn clip_node_list(
    nodes: &Vec<Node>,
    lo: usize,
    hi: usize,
    Ghost(orig): Ghost<Seq<u8>>,
    Ghost(added): Ghost<Seq<u8>>,
) -> (r: Vec<Node>)
    requires
        nodes_in_bounds(nodes@, orig, added),
        orig.len() <= usize::MAX,
        added.len() <= usize::MAX,
        total_len(nodes@) <= usize::MAX,
        lo <= hi <= render(nodes@, orig, added).len(),
    ensures
        nodes_in_bounds(r@, orig, added),
        render(r@, orig, added) == render(nodes@, orig, added).subrange(lo as int, hi as int),
        total_len(r@) == hi - lo,
        (r@.len() == 0) == (lo == hi),
{
    let ghost ns = nodes@;
    let ghost t = render(ns, orig, added);
    let n = nodes.len();
    proof {
        lemma_render_len(ns, orig, added);
        assert forall|k: int| 0 <= k < n implies prefix_len(ns, k) + ns[k].len <= total_len(
            ns,
        ) by {
            assert(prefix_len(ns, k + 1) == prefix_len(ns, k) + ns[k].len);
            lemma_prefix_len_mono(ns, k + 1, n as int);
        }
    }
    let mut out: Vec<Node> = Vec::new();
    let mut i: usize = 0;
    let mut cum: usize = 0;
    proof {
        assert(render(out@, orig, added) =~= t.subrange(lo as int, clamp_mid(
            lo as int,
            hi as int,
            0,
        )));
    }
    while i < n
        invariant
            i <= n == ns.len(),
            ns == nodes@,
            t == render(ns, orig, added),
            nodes_in_bounds(ns, orig, added),
            orig.len() <= usize::MAX,
            added.len() <= usize::MAX,
            lo <= hi <= t.len(),
            t.len() == total_len(ns) <= usize::MAX,
            forall|k: int| 0 <= k < n ==> prefix_len(ns, k) + ns[k].len <= total_len(ns),
            cum == prefix_len(ns, i as int),
            nodes_in_bounds(out@, orig, added),
            render(out@, orig, added) == t.subrange(lo as int, clamp_mid(
                lo as int,
                hi as int,
                cum as int,
            )),
            total_len(out@) == clamp_mid(lo as int, hi as int, cum as int) - lo,
            (out@.len() == 0) == (clamp_mid(lo as int, hi as int, cum as int) == lo),
        decreases n - i,
    {
        let node = nodes[i];
        proof {
            assert(prefix_len(ns, i + 1) == prefix_len(ns, i as int) + ns[i as int].len);
            lemma_prefix_len_mono(ns, i + 1, n as int);
        }
        let node_end = cum + node.len;
        let s = if lo > cum {
            lo
        } else {
            cum
        };
        let e = if hi < node_end {
            hi
        } else {
            node_end
        };
        let ghost mid = clamp_mid(lo as int, hi as int, cum as int);
        let ghost mid2 = clamp_mid(lo as int, hi as int, node_end as int);
        if s < e {
            proof {
                assert(node_in_bounds(node, orig, added));
            }
            let clipped = Node { kind: node.kind, start: node.start + (s - cum), len: e - s };
            let ghost out_before = out@;
            out.push(clipped);
            proof {
                lemma_clip_push(
                    ns,
                    i as int,
                    lo as int,
                    hi as int,
                    out_before,
                    clipped,
                    orig,
                    added,
                );
                assert(out@ == out_before.push(clipped));
            }
        } else {
            proof {
                assert(mid2 == mid);
            }
        }
        cum = node_end;
        i = i + 1;
    }
    proof {
        assert(cum == total_len(ns));
        assert(clamp_mid(lo as int, hi as int, cum as int) == hi);
        lemma_render_len(out@, orig, added);
    }
    out
}

/// The length invariant: at all times a well-formed table's length — what
/// `len` reports, and the number of bytes `to_bytes` renders — equals the
/// sum of its node lengths.
pub proof fn lemma_length_invariant(pt: &PieceTable)
    requires
        pt.wf(),
    ensures
        pt@.len() == pt.sum_of_node_lens(),
{
}

/// Decodes the character whose UTF-8 encoding starts at byte `pos` of
/// `buf`, or nothing when no well-formed encoding starts there: when the
/// leading byte's class is wrong, a continuation byte is missing or
/// malformed, the encoding is overlong, or the value is a surrogate.
#[verifier::rlimit(60)]
fn decode_char_at(buf: &Vec<u8>, pos: usize) -> (r: Option<char>)
    requires
        pos <= buf@.len(),
    ensures
        ({
            let tail = buf@.subrange(pos as int, buf@.len() as int);
            r == if vstd::utf8::valid_first_scalar(tail) {
                Some(vstd::utf8::decode_first_scalar(tail) as char)
            } else {
                None::<char>
            }
        }),
{
    let n = buf.len();
    let ghost tail = buf@.subrange(pos as int, buf@.len() as int);
    if pos >= n {
        return None;
    }
    let tail_len = n - pos;
    let b0 = buf[pos];
    proof {
        assert(tail.len() == tail_len);
        assert(tail[0] == b0);
    }
    if b0 <= 0x7f {
        let cp = (b0 & 0x7f) as u32;
        proof {
            assert((b0 & 0x7f) <= 0x7f) by (bit_vector);
            assert(vstd::utf8::valid_first_scalar(tail));
            assert(vstd::utf8::decode_first_scalar(tail) == cp);
        }
        finish_decode(cp, Ghost(tail))
    } else if 0xc0 <= b0 && b0 <= 0xdf {
        if tail_len < 2 {
            return None;
        }
        let b1 = buf[pos + 1];
        proof {
            assert(tail[1] == b1);
        }
        if !(0x80 <= b1 && b1 <= 0xbf) {
            return None;
        }
        let cp = (((b0 & 0x1f) as u32) << 6u32) | ((b1 & 0x3f) as u32);
        proof {
            assert((((b0 & 0x1f) as u32) << 6u32) | ((b1 & 0x3f) as u32) <= 0x7ff) by (bit_vector);
            assert(vstd::utf8::decode_first_codepoint(tail) == cp);
        }
        if cp < 0x80 {
            return None;
        }
        proof {
            assert(vstd::utf8::valid_first_scalar(tail));
        }
        finish_decode(cp, Ghost(tail))
    } else if 0xe0 <= b0 && b0 <= 0xef {
        if tail_len < 3 {
            return None;
        }
        let b1 = buf[pos + 1];
        let b2 = buf[pos + 2];
        proof {
            assert(tail[1] == b1 && tail[2] == b2);
        }
        if !(0x80 <= b1 && b1 <= 0xbf) || !(0x80 <= b2 && b2 <= 0xbf) {
            return None;
        }
        let cp = (((b0 & 0x0f) as u32) << 12u32) | (((b1 & 0x3f) as u32) << 6u32) | ((b2
            & 0x3f) as u32);
        proof {
            assert((((b0 & 0x0f) as u32) << 12u32) | (((b1 & 0x3f) as u32) << 6u32) | ((b2
                & 0x3f) as u32) <= 0xffff) by (bit_vector);
            assert(vstd::utf8::decode_first_codepoint(tail) == cp);
        }
        if cp < 0x800 {
            return None;
        }
        if 0xd800 <= cp && cp <= 0xdfff {
            return None;
        }
        proof {
            assert(vstd::utf8::valid_first_scalar(tail));
        }
        finish_decode(cp, Ghost(tail))
    } else if 0xf0 <= b0 && b0 <= 0xf7 {
        if tail_len < 4 {
            return None;
        }
        let b1 = buf[pos + 1];
        let b2 = buf[pos + 2];
        let b3 = buf[pos + 3];
        proof {
            assert(tail[1] == b1 && tail[2] == b2 && tail[3] == b3);
        }
        if !(0x80 <= b1 && b1 <= 0xbf) || !(0x80 <= b2 && b2 <= 0xbf) || !(0x80 <= b3 && b3
            <= 0xbf) {
            return None;
        }
        let cp = (((b0 & 0x07) as u32) << 18u32) | (((b1 & 0x3f) as u32) << 12u32) | (((b2
            & 0x3f) as u32) << 6u32) | ((b3 & 0x3f) as u32);
        proof {
            assert(vstd::utf8::decode_first_codepoint(tail) == cp);
        }
        if cp < 0x10000 || cp > 0x10ffff {
            return None;
        }
        proof {
            assert(vstd::utf8::valid_first_scalar(tail));
        }
        finish_decode(cp, Ghost(tail))
    } else {
        None
    }
}

/// Turns a decoded scalar into the character the specification names.
fn finish_decode(cp: u32, Ghost(tail): Ghost<Seq<u8>>) -> (r: Option<char>)
    requires
        vstd::utf8::is_scalar(cp),
        vstd::utf8::valid_first_scalar(tail),
        vstd::utf8::decode_first_scalar(tail) == cp,
    ensures
        r == Some(vstd::utf8::decode_first_scalar(tail) as char),
{
    match char_from_u32(cp) {
        Some(c) => {
            proof {
                vstd::utf8::char_u32_cast(c, cp);
            }
            Some(c)
        },
        None => vstd::pervasive::unreached(),
    }
}

/// Relies on char::from_u32: a Unicode scalar value converts to the
/// character with that value; a surrogate or out-of-range value does not.
#[verifier::external_body]
fn char_from_u32(u: u32) -> (r: Option<char>)
    ensures
        r matches Some(c) ==> c as u32 == u && vstd::utf8::is_scalar(u),
        r is None ==> !vstd::utf8::is_scalar(u),
{
    char::from_u32(u)
}

impl PartialEq for PieceTable {
    /// Two tables are equal when they render to the same text, whatever
    /// their internal node layouts.
    fn eq(&self, other: &Self) -> (r: bool) {
        let a = self.to_bytes_total();
        let b = other.to_bytes_total();
        bytes_eq(&a, &b)
    }
}

impl vstd::std_specs::cmp::PartialEqSpecImpl for PieceTable {
    open spec fn obeys_eq_spec() -> bool {
        true
    }

    open spec fn eq_spec(&self, other: &Self) -> bool {
        self.text_total() == other.text_total()
    }
}

impl Eq for PieceTable {

}

impl PartialEq<String> for PieceTable {
    /// A table equals a string when it renders to that string's bytes.
    fn eq(&self, other: &String) -> (r: bool) {
        let a = self.to_bytes_total();
        let b = vstd::slice::slice_to_vec(other.as_str().as_bytes());
        bytes_eq(&a, &b)
    }
}

impl vstd::std_specs::cmp::PartialEqSpecImpl<String> for PieceTable {
    open spec fn obeys_eq_spec() -> bool {
        true
    }

    open spec fn eq_spec(&self, other: &String) -> bool {
        self.text_total() == vstd::utf8::encode_utf8(other@)
    }
}

impl<'a> PartialEq<&'a str> for PieceTable {
    /// A table equals a string slice when it renders to that slice's bytes.
    fn eq(&self, other: &&'a str) -> (r: bool) {
        let a = self.to_bytes_total();
        let b = vstd::slice::slice_to_vec(other.as_bytes());
        bytes_eq(&a, &b)
    }
}

impl<'a> vstd::std_specs::cmp::PartialEqSpecImpl<&'a str> for PieceTable {
    open spec fn obeys_eq_spec() -> bool {
        true
    }

    open spec fn eq_spec(&self, other: &&'a str) -> bool {
        self.text_total() == spec_bytes_of(*other)
    }
}

impl PartialOrd for PieceTable {
    /// Tables order as their rendered texts do, byte-lexicographically —
    /// the order their rendered strings compare in.
    fn partial_cmp(&self, other: &Self) -> (r: Option<core::cmp::Ordering>) {
        let a = self.to_bytes_total();
        let b = other.to_bytes_total();
        Some(lex_compare(&a, &b))
    }
}

impl vstd::std_specs::cmp::PartialOrdSpecImpl for PieceTable {
    open spec fn obeys_partial_cmp_spec() -> bool {
        true
    }

    open spec fn partial_cmp_spec(&self, other: &Self) -> Option<core::cmp::Ordering> {
        Some(lex_cmp(self.text_total(), other.text_total()))
    }
}

/// On well-formed tables, table equality is equality of the documents, the
/// comparison order is the lexicographic order of the documents, and the
/// two operators agree: tables compare as equal exactly when they are
/// equal.
pub proof fn lemma_compare_by_text(a: &PieceTable, b: &PieceTable)
    requires
        a.wf(),
        b.wf(),
    ensures
        a.eq_spec(b) == (a@ == b@),
        a.partial_cmp_spec(b) == Some(lex_cmp(a@, b@)),
        a.eq_spec(b) == (a.partial_cmp_spec(b) == Some(core::cmp::Ordering::Equal)),
{
    lemma_text_total_is_text(a);
    lemma_text_total_is_text(b);
    lemma_lex_cmp_equal_iff(a@, b@);
}

/// On a well-formed table the comparisons' total rendering is the document
/// itself.
pub proof fn lemma_text_total_is_text(pt: &PieceTable)
    requires
        pt.wf(),
    ensures
        pt.text_total() == pt@,
{
    pt.nodes.lemma_common_view_complete();
    lemma_render_total_matches_render(pt.nodes@, pt.original@, pt.added@);
}

/// Concatenates, node by node, the bytes each node designates, with every
/// span clipped to its buffer: total, unlike the well-formed rendering.
fn render_nodes_total(nodes: &Vec<Node>, orig: &Vec<u8>, added: &Vec<u8>) -> (r: Vec<u8>)
    ensures
        r@ == render_total(nodes@, orig@, added@),
{
    let n = nodes.len();
    let mut r: Vec<u8> = Vec::new();
    let mut i: usize = 0;
    proof {
        assert(r@ =~= render_total(nodes@.take(0), orig@, added@));
    }
    while i < n
        invariant
            i <= n == nodes@.len(),
            r@ == render_total(nodes@.take(i as int), orig@, added@),
        decreases n - i,
    {
        let node = nodes[i];
        let buf = match node.kind {
            NodeKind::Original => orig,
            NodeKind::Added => added,
        };
        let blen = buf.len();
        let s = if node.start <= blen {
            node.start
        } else {
            blen
        };
        let e = if node.start <= blen && node.len <= blen - node.start {
            node.start + node.len
        } else {
            blen
        };
        let mut piece = copy_bytes(buf, s, e);
        proof {
            assert(piece@ == node_bytes_total(node, orig@, added@));
        }
        r.append(&mut piece);
        proof {
            let taken = nodes@.take(i as int);
            assert(nodes@.take(i + 1) =~= taken.push(node));
            lemma_render_total_push(taken, node, orig@, added@);
        }
        i = i + 1;
    }
    proof {
        assert(nodes@.take(n as int) =~= nodes@);
    }
    r
}

/// Whether two byte vectors hold the same bytes.
fn bytes_eq(a: &Vec<u8>, b: &Vec<u8>) -> (r: bool)
    ensures
        r == (a@ == b@),
{
    let n = a.len();
    if n != b.len() {
        return false;
    }
    let mut i: usize = 0;
    while i < n
        invariant
            i <= n == a@.len() && n == b@.len(),
            forall|j: int| 0 <= j < i ==> a@[j] == b@[j],
        decreases n - i,
    {
        if a[i] != b[i] {
            return false;
        }
        i = i + 1;
    }
    proof {
        assert(a@ =~= b@);
    }
    true
}

/// Compares two byte vectors lexicographically.
fn lex_compare(a: &Vec<u8>, b: &Vec<u8>) -> (r: core::cmp::Ordering)
    ensures
        r == lex_cmp(a@, b@),
{
    let alen = a.len();
    let blen = b.len();
    let n = if alen <= blen {
        alen
    } else {
        blen
    };
    let mut i: usize = 0;
    while i < n
        invariant
            i <= n,
            n == if alen <= blen {
                alen
            } else {
                blen
            },
            alen == a@.len() && blen == b@.len(),
            forall|j: int| 0 <= j < i ==> a@[j] == b@[j],
        decreases n - i,
    {
        let x = a[i];
        let y = b[i];
        if x != y {
            proof {
                lemma_lex_cmp_skip_prefix(a@, b@, i as int);
                assert(a@.skip(i as int)[0] == x && b@.skip(i as int)[0] == y);
            }
            if x < y {
                return core::cmp::Ordering::Less;
            } else {
                return core::cmp::Ordering::Greater;
            }
        }
        i = i + 1;
    }
    proof {
        lemma_lex_cmp_skip_prefix(a@, b@, n as int);
        assert(a@.skip(n as int).len() == alen - n);
        assert(b@.skip(n as int).len() == blen - n);
    }
    if alen == blen {
        core::cmp::Ordering::Equal
    } else if alen < blen {
        core::cmp::Ordering::Less
    } else {
        core::cmp::Ordering::Greater
    }
}

/// The byte vector a shared buffer handle points at.
fn rc_bytes<'a>(rc: &'a Rc<Vec<u8>>) -> (r: &'a Vec<u8>)
    ensures
        r@ == rc@,
{
    &**rc
}

/// Concatenates, node by node, the bytes each node designates in its
/// buffer.
fn render_nodes_bytes(nodes: &Vec<Node>, orig: &Vec<u8>, added: &Vec<u8>) -> (r: Vec<u8>)
    requires
        nodes_in_bounds(nodes@, orig@, added@),
    ensures
        r@ == render(nodes@, orig@, added@),
{
    let n = nodes.len();
    let mut r: Vec<u8> = Vec::new();
    let mut i: usize = 0;
    proof {
        assert(r@ =~= render(nodes@.take(0), orig@, added@));
    }
    while i < n
        invariant
            i <= n == nodes@.len(),
            nodes_in_bounds(nodes@, orig@, added@),
            r@ == render(nodes@.take(i as int), orig@, added@),
        decreases n - i,
    {
        let node = nodes[i];
        let buf = match node.kind {
            NodeKind::Original => orig,
            NodeKind::Added => added,
        };
        let blen = buf.len();
        proof {
            assert(node_in_bounds(node, orig@, added@));
            assert(node.start + node.len <= blen);
        }
        let mut piece = copy_bytes(buf, node.start, node.start + node.len);
        proof {
            assert(piece@ == node_bytes(node, orig@, added@));
        }
        r.append(&mut piece);
        proof {
            let taken = nodes@.take(i as int);
            assert(nodes@.take(i + 1) =~= taken + seq![node]);
            lemma_render_concat(taken, seq![node], orig@, added@);
            lemma_render_singleton(node, orig@, added@);
        }
        i = i + 1;
    }
    proof {
        assert(nodes@.take(n as int) =~= nodes@);
    }
    r
}

/// Relies on String::from_utf8: it succeeds exactly on valid UTF-8 input
/// and the resulting string holds exactly the given bytes.
#[verifier::external_body]
fn string_from_bytes(v: Vec<u8>) -> (r: Option<String>)
    ensures
        r matches Some(s) ==> vstd::utf8::valid_utf8(v@) && vstd::utf8::encode_utf8(s@) == v@,
        r is None ==> !vstd::utf8::valid_utf8(v@),
{
    String::from_utf8(v).ok()
}

} // verus!
