//! The mathematical model of the document: what a node list renders to,
//! and the facts about rendering that the editing operations rest on.

use vstd::prelude::*;

use crate::nodes::{Node, NodeKind};

verus! {

/// The UTF-8 bytes of a string slice; the unit the whole model is stated in.
pub open spec fn spec_bytes_of(s: &str) -> Seq<u8> {
    vstd::string::StringSliceAdditionalSpecFns::spec_bytes(s)
}

/// The UTF-8 bytes of a single character.
pub open spec fn char_bytes(c: char) -> Seq<u8> {
    vstd::utf8::encode_scalar(c as u32)
}

/// The buffer a node reads from.
pub open spec fn buffer_of(n: Node, orig: Seq<u8>, added: Seq<u8>) -> Seq<u8> {
    match n.kind {
        NodeKind::Original => orig,
        NodeKind::Added => added,
    }
}

/// A node designates a span that lies within its buffer.
pub open spec fn node_in_bounds(n: Node, orig: Seq<u8>, added: Seq<u8>) -> bool {
    n.start + n.len <= buffer_of(n, orig, added).len()
}

/// Every node of the list designates a span within its buffer.
pub open spec fn nodes_in_bounds(ns: Seq<Node>, orig: Seq<u8>, added: Seq<u8>) -> bool {
    forall|i: int| 0 <= i < ns.len() ==> node_in_bounds(#[trigger] ns[i], orig, added)
}

/// The bytes a single node stands for.
pub open spec fn node_bytes(n: Node, orig: Seq<u8>, added: Seq<u8>) -> Seq<u8> {
    buffer_of(n, orig, added).subrange(n.start as int, n.start + n.len)
}

/// The text a node list renders to: the concatenation, in order, of the
/// bytes each node designates.
pub open spec fn render(ns: Seq<Node>, orig: Seq<u8>, added: Seq<u8>) -> Seq<u8>
    decreases ns.len(),
{
    if ns.len() == 0 {
        Seq::empty()
    } else {
        node_bytes(ns[0], orig, added) + render(ns.drop_first(), orig, added)
    }
}

/// The sum of the lengths of the first `i` nodes: the byte offset, in the
/// rendered text, at which node `i` starts.
pub open spec fn prefix_len(ns: Seq<Node>, i: int) -> int
    decreases i,
{
    if i <= 0 {
        0
    } else {
        prefix_len(ns, i - 1) + ns[i - 1].len
    }
}

/// The sum of all node lengths.
pub open spec fn total_len(ns: Seq<Node>) -> int {
    prefix_len(ns, ns.len() as int)
}

/// What inserting `d` into `t` at `offset` yields: an offset at or past the
/// end appends.
pub open spec fn spec_insert(t: Seq<u8>, d: Seq<u8>, offset: int) -> Seq<u8> {
    let at = if offset <= t.len() {
        offset
    } else {
        t.len() as int
    };
    t.subrange(0, at) + d + t.subrange(at, t.len() as int)
}

/// What deleting `[start, end)` from `t` leaves behind.
pub open spec fn spec_delete(t: Seq<u8>, start: int, end: int) -> Seq<u8>
    recommends
        0 <= start <= end <= t.len(),
{
    t.subrange(0, start) + t.subrange(end, t.len() as int)
}

/// What replacing at `offset` yields: the bytes from `offset` up to
/// `offset + d.len()`, clamped to the end of the text, give way to `d`.
pub open spec fn spec_replace(t: Seq<u8>, d: Seq<u8>, offset: int) -> Seq<u8>
    recommends
        0 <= offset <= t.len(),
{
    let end = if offset + d.len() <= t.len() {
        offset + d.len()
    } else {
        t.len() as int
    };
    t.subrange(0, offset) + d + t.subrange(end, t.len() as int)
}

/// The sub-text a slice request designates: the start is clamped to the
/// text's length, the end to the text's length and to the start.
pub open spec fn clip(t: Seq<u8>, start: int, end: int) -> Seq<u8> {
    let lo = if start <= t.len() {
        start
    } else {
        t.len() as int
    };
    let hi = if end <= t.len() {
        end
    } else {
        t.len() as int
    };
    if hi <= lo {
        t.subrange(lo, lo)
    } else {
        t.subrange(lo, hi)
    }
}

/// Where a clipping walk that has consumed the first `cum` text bytes
/// stands within the requested window `[lo, hi)`.
pub open spec fn clamp_mid(lo: int, hi: int, cum: int) -> int {
    if cum <= lo {
        lo
    } else if cum >= hi {
        hi
    } else {
        cum
    }
}

/// One editing operation, as a differential driver applies it: before the
/// call, the driver clamps offsets and range ends into the current text's
/// bounds and orders the range.
pub enum Edit {
    Insert(Seq<u8>, int),
    Delete(int, int),
}

/// The text after one clamped editing operation.
pub open spec fn apply_edit(t: Seq<u8>, e: Edit) -> Seq<u8> {
    match e {
        Edit::Insert(d, at) => {
            let a = if at < 0 {
                0
            } else if at > t.len() {
                t.len() as int
            } else {
                at
            };
            spec_insert(t, d, a)
        },
        Edit::Delete(from, to) => {
            let f0 = if from < 0 {
                0
            } else if from > t.len() {
                t.len() as int
            } else {
                from
            };
            let t0 = if to < 0 {
                0
            } else if to > t.len() {
                t.len() as int
            } else {
                to
            };
            if f0 <= t0 {
                spec_delete(t, f0, t0)
            } else {
                spec_delete(t, t0, f0)
            }
        },
    }
}

/// The text after a whole sequence of clamped editing operations.
pub open spec fn apply_edits(t: Seq<u8>, es: Seq<Edit>) -> Seq<u8>
    decreases es.len(),
{
    if es.len() == 0 {
        t
    } else {
        apply_edits(apply_edit(t, es[0]), es.drop_first())
    }
}

/// Two editable-text implementations fed the same clamped operation
/// sequence from equal texts hold equal texts after every prefix of it.
/// `EditableText`'s contract pins each implementation's text after an
/// operation to exactly `apply_edit` of its text before — `spec_insert`
/// and `spec_delete` are the contract's right-hand sides — so the texts of
/// any two implementations that meet the contract evolve in lockstep.
pub proof fn lemma_same_edits_same_text(t1: Seq<u8>, t2: Seq<u8>, es: Seq<Edit>)
    requires
        t1 == t2,
    ensures
        apply_edits(t1, es) == apply_edits(t2, es),
        forall|i: int|
            0 <= i <= es.len() ==> apply_edits(t1, #[trigger] es.take(i)) == apply_edits(
                t2,
                es.take(i),
            ),
{
}

/// Slicing the whole text changes nothing: the clip of `[0, len)` is the
/// text itself. A whole-document slice therefore renders identically to
/// the table at the moment it was taken.
pub proof fn lemma_full_clip(t: Seq<u8>)
    ensures
        clip(t, 0, t.len() as int) == t,
{
    assert(clip(t, 0, t.len() as int) =~= t);
}

/// Re-slicing: clipping `[c, d)` out of the clip of `[a, b)` is the clip
/// of `[a + c, a + d)` of the original text, whenever `0 <= c <= d <= b - a`.
/// A slice of a slice therefore renders identically to the directly taken
/// slice of the table.
pub proof fn lemma_reslice(t: Seq<u8>, a: int, b: int, c: int, d: int)
    requires
        0 <= a <= b,
        0 <= c <= d <= b - a,
    ensures
        clip(clip(t, a, b), c, d) == clip(t, a + c, a + d),
{
    assert(clip(clip(t, a, b), c, d) =~= clip(t, a + c, a + d));
}

/// Prefix sums only look at the nodes before `i`, so lists that agree there
/// have the same prefix sum.
pub proof fn lemma_prefix_len_agree(a: Seq<Node>, b: Seq<Node>, i: int)
    requires
        forall|j: int| 0 <= j < i ==> a[j] == b[j],
    ensures
        prefix_len(a, i) == prefix_len(b, i),
    decreases i,
{
    if i > 0 {
        lemma_prefix_len_agree(a, b, i - 1);
    }
}

/// Prefix sums are nondecreasing in the index (node lengths are nonnegative).
pub proof fn lemma_prefix_len_mono(ns: Seq<Node>, i: int, j: int)
    requires
        0 <= i <= j <= ns.len(),
    ensures
        prefix_len(ns, i) <= prefix_len(ns, j),
    decreases j,
{
    if i < j {
        lemma_prefix_len_mono(ns, i, j - 1);
    }
}

/// Rendering distributes over concatenation of node lists.
pub proof fn lemma_render_concat(a: Seq<Node>, b: Seq<Node>, orig: Seq<u8>, added: Seq<u8>)
    ensures
        render(a + b, orig, added) == render(a, orig, added) + render(b, orig, added),
    decreases a.len(),
{
    if a.len() == 0 {
        assert(a + b =~= b);
        assert(render(a, orig, added) + render(b, orig, added) =~= render(b, orig, added));
    } else {
        assert((a + b).drop_first() =~= a.drop_first() + b);
        lemma_render_concat(a.drop_first(), b, orig, added);
        assert(render(a + b, orig, added) =~= render(a, orig, added) + render(b, orig, added));
    }
}

/// A one-node list renders to that node's bytes.
pub proof fn lemma_render_singleton(n: Node, orig: Seq<u8>, added: Seq<u8>)
    ensures
        render(seq![n], orig, added) == node_bytes(n, orig, added),
{
    let s = seq![n];
    assert(s.len() == 1 && s[0] == n);
    assert(s.drop_first() =~= Seq::<Node>::empty());
    assert(render(s, orig, added) == node_bytes(n, orig, added) + render(
        Seq::<Node>::empty(),
        orig,
        added,
    ));
    assert(node_bytes(n, orig, added) + Seq::<u8>::empty() =~= node_bytes(n, orig, added));
}

/// An in-bounds node list renders to exactly as many bytes as its lengths
/// sum to.
pub proof fn lemma_render_len(ns: Seq<Node>, orig: Seq<u8>, added: Seq<u8>)
    requires
        nodes_in_bounds(ns, orig, added),
    ensures
        render(ns, orig, added).len() == total_len(ns),
        total_len(ns) >= 0,
    decreases ns.len(),
{
    if ns.len() == 0 {
    } else {
        let rest = ns.drop_first();
        assert(nodes_in_bounds(rest, orig, added)) by {
            assert(forall|i: int|
                0 <= i < rest.len() ==> rest[i] == ns[i + 1] && node_in_bounds(
                    #[trigger] rest[i],
                    orig,
                    added,
                ));
        }
        lemma_render_len(rest, orig, added);
        lemma_prefix_len_shift(ns, ns.len() as int);
    }
}

/// Peeling the first node off a prefix sum.
pub proof fn lemma_prefix_len_shift(ns: Seq<Node>, i: int)
    requires
        1 <= i <= ns.len(),
    ensures
        prefix_len(ns, i) == ns[0].len + prefix_len(ns.drop_first(), i - 1),
    decreases i,
{
    let df = ns.drop_first();
    if i == 1 {
        assert(prefix_len(ns, 1) == prefix_len(ns, 0) + ns[0].len);
        assert(prefix_len(df, 0) == 0);
    } else {
        lemma_prefix_len_shift(ns, i - 1);
        assert(df[i - 2] == ns[i - 1]);
        assert(prefix_len(ns, i) == prefix_len(ns, i - 1) + ns[i - 1].len);
        assert(prefix_len(df, i - 1) == prefix_len(df, i - 2) + df[i - 2].len);
    }
}

/// Rendering splits at any node index.
pub proof fn lemma_render_split(ns: Seq<Node>, i: int, orig: Seq<u8>, added: Seq<u8>)
    requires
        0 <= i <= ns.len(),
    ensures
        render(ns, orig, added) == render(ns.take(i), orig, added) + render(
            ns.skip(i),
            orig,
            added,
        ),
{
    assert(ns.take(i) + ns.skip(i) =~= ns);
    lemma_render_concat(ns.take(i), ns.skip(i), orig, added);
}

/// The first `i` nodes render to the first `prefix_len(ns, i)` bytes of the
/// whole text, and the rest render to the remainder.
pub proof fn lemma_render_take_skip(ns: Seq<Node>, i: int, orig: Seq<u8>, added: Seq<u8>)
    requires
        nodes_in_bounds(ns, orig, added),
        0 <= i <= ns.len(),
    ensures
        0 <= prefix_len(ns, i) <= render(ns, orig, added).len(),
        render(ns.take(i), orig, added) == render(ns, orig, added).subrange(0, prefix_len(ns, i)),
        render(ns.skip(i), orig, added) == render(ns, orig, added).subrange(
            prefix_len(ns, i),
            render(ns, orig, added).len() as int,
        ),
{
    let t = render(ns, orig, added);
    lemma_render_split(ns, i, orig, added);
    assert(nodes_in_bounds(ns.take(i), orig, added)) by {
        assert(forall|j: int|
            0 <= j < i ==> ns.take(i)[j] == ns[j] && node_in_bounds(
                #[trigger] ns.take(i)[j],
                orig,
                added,
            ));
    }
    assert(nodes_in_bounds(ns.skip(i), orig, added)) by {
        assert(forall|j: int|
            0 <= j < ns.len() - i ==> ns.skip(i)[j] == ns[j + i] && node_in_bounds(
                #[trigger] ns.skip(i)[j],
                orig,
                added,
            ));
    }
    lemma_render_len(ns.take(i), orig, added);
    lemma_render_len(ns.skip(i), orig, added);
    lemma_render_len(ns, orig, added);
    assert(total_len(ns.take(i)) == prefix_len(ns, i)) by {
        lemma_prefix_len_agree(ns.take(i), ns, i);
    }
    lemma_prefix_len_mono(ns, i, ns.len() as int);
    assert(render(ns.take(i), orig, added) =~= t.subrange(0, prefix_len(ns, i)));
    assert(render(ns.skip(i), orig, added) =~= t.subrange(prefix_len(ns, i), t.len() as int));
}

/// Rendering splits around any single node: text before it, its bytes, text
/// after it.
pub proof fn lemma_render_three_way(ns: Seq<Node>, i: int, orig: Seq<u8>, added: Seq<u8>)
    requires
        nodes_in_bounds(ns, orig, added),
        0 <= i < ns.len(),
    ensures
        0 <= prefix_len(ns, i),
        prefix_len(ns, i) + ns[i].len <= render(ns, orig, added).len(),
        render(ns, orig, added) == render(ns.take(i), orig, added) + node_bytes(ns[i], orig, added)
            + render(ns.skip(i + 1), orig, added),
        forall|k: int|
            0 <= k < ns[i].len ==> render(ns, orig, added)[prefix_len(ns, i) + k] == node_bytes(
                ns[i],
                orig,
                added,
            )[k],
{
    let t = render(ns, orig, added);
    lemma_render_take_skip(ns, i, orig, added);
    lemma_render_take_skip(ns, i + 1, orig, added);
    lemma_render_split(ns, i, orig, added);
    let tail = ns.skip(i);
    assert(tail[0] == ns[i]);
    assert(tail.drop_first() =~= ns.skip(i + 1));
    assert(render(tail, orig, added) == node_bytes(ns[i], orig, added) + render(
        ns.skip(i + 1),
        orig,
        added,
    ));
    lemma_render_len(ns, orig, added);
    lemma_render_len(ns.take(i), orig, added);
    lemma_prefix_len_mono(ns, i + 1, ns.len() as int);
    assert forall|k: int| 0 <= k < ns[i].len implies t[prefix_len(ns, i) + k] == node_bytes(
        ns[i],
        orig,
        added,
    )[k] by {
        assert(t == render(ns.take(i), orig, added) + (node_bytes(ns[i], orig, added) + render(
            ns.skip(i + 1),
            orig,
            added,
        )));
        assert(render(ns.take(i), orig, added).len() == prefix_len(ns, i));
        assert(node_in_bounds(ns[i], orig, added));
    }
}

/// Each byte of the rendered text comes from the buffer of the node
/// covering it: byte `prefix_len(ns, i) + k` of the text is byte
/// `ns[i].start + k` of node `i`'s buffer.
pub proof fn lemma_render_byte_at(ns: Seq<Node>, i: int, k: int, orig: Seq<u8>, added: Seq<u8>)
    requires
        nodes_in_bounds(ns, orig, added),
        0 <= i < ns.len(),
        0 <= k < ns[i].len,
    ensures
        0 <= prefix_len(ns, i) + k < render(ns, orig, added).len(),
        render(ns, orig, added)[prefix_len(ns, i) + k] == buffer_of(ns[i], orig, added)[ns[i].start
            + k],
{
    let t = render(ns, orig, added);
    let p = prefix_len(ns, i);
    let tail = ns.skip(i);
    lemma_render_take_skip(ns, i, orig, added);
    assert(render(tail, orig, added) == t.subrange(p, t.len() as int));
    assert(tail[0] == ns[i]);
    assert(render(tail, orig, added) == node_bytes(ns[i], orig, added) + render(
        tail.drop_first(),
        orig,
        added,
    ));
    assert(node_in_bounds(ns[i], orig, added));
    assert(node_bytes(ns[i], orig, added).len() == ns[i].len);
    assert(render(tail, orig, added)[k] == node_bytes(ns[i], orig, added)[k]);
    assert(render(tail, orig, added).len() == t.len() - p);
    assert(ns[i].len <= t.len() - p);
    assert(t.subrange(p, t.len() as int)[k] == t[p + k]);
    assert(node_bytes(ns[i], orig, added)[k] == buffer_of(ns[i], orig, added)[ns[i].start + k]);
}

/// Rendering an inserted node list: the new node's bytes appear between the
/// texts of the nodes before and after the insertion point.
pub proof fn lemma_render_insert(ns: Seq<Node>, i: int, m: Node, orig: Seq<u8>, added: Seq<u8>)
    requires
        0 <= i <= ns.len(),
    ensures
        render(ns.insert(i, m), orig, added) == render(ns.take(i), orig, added) + node_bytes(
            m,
            orig,
            added,
        ) + render(ns.skip(i), orig, added),
{
    assert(ns.insert(i, m) =~= ns.take(i) + seq![m] + ns.skip(i));
    lemma_render_concat(ns.take(i) + seq![m], ns.skip(i), orig, added);
    lemma_render_concat(ns.take(i), seq![m], orig, added);
    lemma_render_singleton(m, orig, added);
}

/// Rendering after overwriting one node: the new node's bytes appear
/// between the unchanged texts of the nodes before and after it.
pub proof fn lemma_render_update(ns: Seq<Node>, i: int, m: Node, orig: Seq<u8>, added: Seq<u8>)
    requires
        0 <= i < ns.len(),
    ensures
        render(ns.update(i, m), orig, added) == render(ns.take(i), orig, added) + node_bytes(
            m,
            orig,
            added,
        ) + render(ns.skip(i + 1), orig, added),
{
    assert(ns.update(i, m) =~= ns.take(i) + seq![m] + ns.skip(i + 1));
    lemma_render_concat(ns.take(i) + seq![m], ns.skip(i + 1), orig, added);
    lemma_render_concat(ns.take(i), seq![m], orig, added);
    lemma_render_singleton(m, orig, added);
}

/// Extending the added buffer changes no existing node's bytes: rendering
/// only reads the prefix the nodes lie in.
pub proof fn lemma_render_buffer_extend(
    ns: Seq<Node>,
    orig: Seq<u8>,
    added: Seq<u8>,
    added2: Seq<u8>,
)
    requires
        nodes_in_bounds(ns, orig, added),
        added.len() <= added2.len(),
        added2.subrange(0, added.len() as int) == added,
    ensures
        nodes_in_bounds(ns, orig, added2),
        render(ns, orig, added2) == render(ns, orig, added),
    decreases ns.len(),
{
    assert(forall|j: int| 0 <= j < added.len() ==> added2[j] == added[j]) by {
        assert(forall|j: int|
            0 <= j < added.len() ==> added2.subrange(0, added.len() as int)[j] == added2[j]);
    }
    assert forall|i: int| 0 <= i < ns.len() implies node_in_bounds(
        #[trigger] ns[i],
        orig,
        added2,
    ) by {
        assert(node_in_bounds(ns[i], orig, added));
    }
    if ns.len() > 0 {
        let rest = ns.drop_first();
        assert(nodes_in_bounds(rest, orig, added)) by {
            assert(forall|i: int|
                0 <= i < rest.len() ==> rest[i] == ns[i + 1] && node_in_bounds(
                    #[trigger] rest[i],
                    orig,
                    added,
                ));
        }
        lemma_render_buffer_extend(rest, orig, added, added2);
        assert(node_bytes(ns[0], orig, added2) =~= node_bytes(ns[0], orig, added)) by {
            assert(node_in_bounds(ns[0], orig, added));
        }
    }
}

/// Splitting one node in two at a local offset.
pub open spec fn split_at_spec(ns: Seq<Node>, i: int, local: int) -> Seq<Node>
    recommends
        0 <= i < ns.len(),
        0 < local < ns[i].len,
{
    let n = ns[i];
    let first = Node { kind: n.kind, start: n.start, len: local as usize };
    let second = Node {
        kind: n.kind,
        start: (n.start + local) as usize,
        len: (n.len - local) as usize,
    };
    ns.update(i, first).insert(i + 1, second)
}

/// Splitting a node neither changes the rendered text nor moves the byte
/// offset of any boundary: the split point becomes a node boundary whose
/// prefix sum is the old node's start plus the local offset.
pub proof fn lemma_split_preserves_render(
    ns: Seq<Node>,
    i: int,
    local: int,
    orig: Seq<u8>,
    added: Seq<u8>,
)
    requires
        nodes_in_bounds(ns, orig, added),
        0 <= i < ns.len(),
        0 < local < ns[i].len,
        ns[i].start + ns[i].len <= usize::MAX,
    ensures
        nodes_in_bounds(split_at_spec(ns, i, local), orig, added),
        render(split_at_spec(ns, i, local), orig, added) == render(ns, orig, added),
        split_at_spec(ns, i, local).len() == ns.len() + 1,
        prefix_len(split_at_spec(ns, i, local), i) == prefix_len(ns, i),
        prefix_len(split_at_spec(ns, i, local), i + 1) == prefix_len(ns, i) + local,
        total_len(split_at_spec(ns, i, local)) == total_len(ns),
{
    let n = ns[i];
    let first = Node { kind: n.kind, start: n.start, len: local as usize };
    let second = Node {
        kind: n.kind,
        start: (n.start + local) as usize,
        len: (n.len - local) as usize,
    };
    let sp = split_at_spec(ns, i, local);
    assert(node_in_bounds(n, orig, added));
    assert(sp =~= ns.take(i) + seq![first, second] + ns.skip(i + 1));
    assert forall|j: int| 0 <= j < sp.len() implies node_in_bounds(#[trigger] sp[j], orig, added) by {
        if j < i {
            assert(sp[j] == ns[j]);
            assert(node_in_bounds(ns[j], orig, added));
        } else if j > i + 1 {
            assert(sp[j] == ns[j - 1]);
            assert(node_in_bounds(ns[j - 1], orig, added));
        }
    }
    lemma_render_three_way(ns, i, orig, added);
    lemma_render_concat(ns.take(i) + seq![first, second], ns.skip(i + 1), orig, added);
    lemma_render_concat(ns.take(i), seq![first, second], orig, added);
    assert(render(seq![first, second], orig, added) == node_bytes(first, orig, added) + node_bytes(
        second,
        orig,
        added,
    )) by {
        let pair = seq![first, second];
        assert(pair.drop_first() =~= seq![second]);
        lemma_render_singleton(second, orig, added);
    }
    assert(node_bytes(first, orig, added) + node_bytes(second, orig, added) =~= node_bytes(
        n,
        orig,
        added,
    ));
    assert(render(sp, orig, added) == render(ns, orig, added));
    assert(prefix_len(sp, i) == prefix_len(ns, i)) by {
        assert(forall|j: int| 0 <= j < i ==> sp[j] == ns[j]);
        lemma_prefix_len_agree(sp, ns, i);
    }
    assert(prefix_len(sp, i + 1) == prefix_len(ns, i) + local);
    assert(total_len(sp) == total_len(ns)) by {
        lemma_render_len(sp, orig, added);
        lemma_render_len(ns, orig, added);
    }
}

/// The bytes a node stands for, with its span clipped to its buffer: equal
/// to `node_bytes` for an in-bounds node, and still meaningful — never
/// reading past the buffer — for any other. Comparison operators must be
/// total, so they render through this.
pub open spec fn node_bytes_total(n: Node, orig: Seq<u8>, added: Seq<u8>) -> Seq<u8> {
    let buf = buffer_of(n, orig, added);
    let s = if n.start <= buf.len() {
        n.start as int
    } else {
        buf.len() as int
    };
    let e = if n.start + n.len <= buf.len() {
        n.start + n.len
    } else {
        buf.len() as int
    };
    buf.subrange(s, e)
}

/// The text a node list renders to, reading each node through its clipped
/// span: equal to `render` whenever every node is in bounds.
pub open spec fn render_total(ns: Seq<Node>, orig: Seq<u8>, added: Seq<u8>) -> Seq<u8>
    decreases ns.len(),
{
    if ns.len() == 0 {
        Seq::empty()
    } else {
        node_bytes_total(ns[0], orig, added) + render_total(ns.drop_first(), orig, added)
    }
}

/// Appending one node appends its clipped bytes to the total rendering.
pub proof fn lemma_render_total_push(ns: Seq<Node>, n: Node, orig: Seq<u8>, added: Seq<u8>)
    ensures
        render_total(ns.push(n), orig, added) == render_total(ns, orig, added) + node_bytes_total(
            n,
            orig,
            added,
        ),
    decreases ns.len(),
{
    if ns.len() == 0 {
        let p = ns.push(n);
        assert(p.len() == 1 && p[0] == n);
        assert(p.drop_first() =~= Seq::<Node>::empty());
        assert(render_total(Seq::<Node>::empty(), orig, added) == Seq::<u8>::empty());
        assert(render_total(p, orig, added) == node_bytes_total(n, orig, added) + render_total(
            p.drop_first(),
            orig,
            added,
        ));
        assert(node_bytes_total(n, orig, added) + Seq::<u8>::empty() =~= node_bytes_total(
            n,
            orig,
            added,
        ));
        assert(render_total(ns, orig, added) == Seq::<u8>::empty());
        assert(Seq::<u8>::empty() + node_bytes_total(n, orig, added) =~= node_bytes_total(
            n,
            orig,
            added,
        ));
    } else {
        assert(ns.push(n).drop_first() =~= ns.drop_first().push(n));
        assert(ns.push(n)[0] == ns[0]);
        lemma_render_total_push(ns.drop_first(), n, orig, added);
        assert(render_total(ns.push(n), orig, added) =~= render_total(ns, orig, added)
            + node_bytes_total(n, orig, added));
    }
}

/// On an in-bounds node list the total rendering is the rendering.
pub proof fn lemma_render_total_matches_render(ns: Seq<Node>, orig: Seq<u8>, added: Seq<u8>)
    requires
        nodes_in_bounds(ns, orig, added),
    ensures
        render_total(ns, orig, added) == render(ns, orig, added),
    decreases ns.len(),
{
    if ns.len() > 0 {
        assert(node_in_bounds(ns[0], orig, added));
        assert(node_bytes_total(ns[0], orig, added) == node_bytes(ns[0], orig, added));
        let rest = ns.drop_first();
        assert(nodes_in_bounds(rest, orig, added)) by {
            assert(forall|i: int|
                0 <= i < rest.len() ==> rest[i] == ns[i + 1] && node_in_bounds(
                    #[trigger] rest[i],
                    orig,
                    added,
                ));
        }
        lemma_render_total_matches_render(rest, orig, added);
    }
}

/// Lexicographic order on byte strings: the order `partial_cmp` reports,
/// and the order Rust's own string comparison uses.
pub open spec fn lex_cmp(a: Seq<u8>, b: Seq<u8>) -> core::cmp::Ordering
    decreases a.len(), b.len(),
{
    if a.len() == 0 && b.len() == 0 {
        core::cmp::Ordering::Equal
    } else if a.len() == 0 {
        core::cmp::Ordering::Less
    } else if b.len() == 0 {
        core::cmp::Ordering::Greater
    } else if a[0] < b[0] {
        core::cmp::Ordering::Less
    } else if a[0] > b[0] {
        core::cmp::Ordering::Greater
    } else {
        lex_cmp(a.drop_first(), b.drop_first())
    }
}

/// Byte strings with a common prefix compare as their remainders do.
pub proof fn lemma_lex_cmp_skip_prefix(a: Seq<u8>, b: Seq<u8>, i: int)
    requires
        0 <= i <= a.len(),
        i <= b.len(),
        forall|j: int| 0 <= j < i ==> a[j] == b[j],
    ensures
        lex_cmp(a, b) == lex_cmp(a.skip(i), b.skip(i)),
    decreases i,
{
    if i == 0 {
        assert(a.skip(0) =~= a);
        assert(b.skip(0) =~= b);
    } else {
        assert(a.len() > 0 && b.len() > 0);
        assert(a[0] == b[0]);
        assert(lex_cmp(a, b) == lex_cmp(a.drop_first(), b.drop_first()));
        assert(a.drop_first() =~= a.skip(1));
        assert(b.drop_first() =~= b.skip(1));
        lemma_lex_cmp_skip_prefix(a.skip(1), b.skip(1), i - 1);
        assert(a.skip(1).skip(i - 1) =~= a.skip(i));
        assert(b.skip(1).skip(i - 1) =~= b.skip(i));
    }
}

/// Lexicographic comparison reports equality exactly on equal byte strings.
pub proof fn lemma_lex_cmp_equal_iff(a: Seq<u8>, b: Seq<u8>)
    ensures
        (lex_cmp(a, b) == core::cmp::Ordering::Equal) == (a == b),
    decreases a.len(),
{
    if a.len() == 0 && b.len() == 0 {
        assert(a =~= b);
    } else if a.len() > 0 && b.len() > 0 && a[0] == b[0] {
        lemma_lex_cmp_equal_iff(a.drop_first(), b.drop_first());
        if a.drop_first() == b.drop_first() {
            assert forall|j: int| 0 <= j < a.len() implies a[j] == b[j] by {
                if j >= 1 {
                    assert(a.drop_first()[j - 1] == a[j]);
                    assert(b.drop_first()[j - 1] == b[j]);
                }
            }
            assert(a.len() == b.len());
            assert(a =~= b);
        }
        if a == b {
            assert(a.drop_first() =~= b.drop_first());
        }
    } else {
        assert(a != b) by {
            if a == b {
                assert(a.len() == b.len());
                if a.len() > 0 {
                    assert(a[0] == b[0]);
                }
            }
        }
    }
}

/// One step of the clipping walk: when node `i`'s span meets the window
/// `[lo, hi)` in the text interval `[s, e)`, pushing the node clipped to
/// that interval extends the collected rendering up to `e` — which is where
/// the walk, now past `i`, stands within the window.
#[verifier::spinoff_prover]
#[verifier::rlimit(100)]
pub proof fn lemma_clip_push(
    ns: Seq<Node>,
    i: int,
    lo: int,
    hi: int,
    out: Seq<Node>,
    clipped: Node,
    orig: Seq<u8>,
    added: Seq<u8>,
)
    requires
        nodes_in_bounds(ns, orig, added),
        0 <= i < ns.len(),
        0 <= lo <= hi <= render(ns, orig, added).len(),
        ns[i].start + ns[i].len <= buffer_of(ns[i], orig, added).len(),
        buffer_of(ns[i], orig, added).len() <= usize::MAX,
        ({
            let cum = prefix_len(ns, i);
            let s = if lo > cum {
                lo
            } else {
                cum
            };
            let e = if hi < cum + ns[i].len {
                hi
            } else {
                cum + ns[i].len
            };
            &&& s < e
            &&& clipped == (Node {
                kind: ns[i].kind,
                start: (ns[i].start + (s - cum)) as usize,
                len: (e - s) as usize,
            })
            &&& nodes_in_bounds(out, orig, added)
            &&& render(out, orig, added) == render(ns, orig, added).subrange(
                lo,
                clamp_mid(lo, hi, cum),
            )
            &&& total_len(out) == clamp_mid(lo, hi, cum) - lo
        }),
    ensures
        nodes_in_bounds(out.push(clipped), orig, added),
        render(out.push(clipped), orig, added) == render(ns, orig, added).subrange(
            lo,
            clamp_mid(lo, hi, prefix_len(ns, i) + ns[i].len),
        ),
        total_len(out.push(clipped)) == clamp_mid(lo, hi, prefix_len(ns, i) + ns[i].len) - lo,
        clipped.len > 0,
{
    let t = render(ns, orig, added);
    let cum = prefix_len(ns, i);
    let node = ns[i];
    let s = if lo > cum {
        lo
    } else {
        cum
    };
    let e = if hi < cum + node.len {
        hi
    } else {
        cum + node.len
    };
    lemma_render_three_way(ns, i, orig, added);
    assert(node_bytes(node, orig, added) =~= t.subrange(cum, cum + node.len));
    assert(node_in_bounds(node, orig, added));
    assert(node_bytes(clipped, orig, added) =~= node_bytes(node, orig, added).subrange(
        s - cum,
        e - cum,
    ));
    assert(node_bytes(clipped, orig, added) =~= t.subrange(s, e));
    assert(out.push(clipped) =~= out + seq![clipped]);
    lemma_render_concat(out, seq![clipped], orig, added);
    lemma_render_singleton(clipped, orig, added);
    assert(clamp_mid(lo, hi, cum) == s);
    assert(clamp_mid(lo, hi, cum + node.len) == e);
    assert(render(out.push(clipped), orig, added) =~= t.subrange(lo, e));
    assert(nodes_in_bounds(out.push(clipped), orig, added)) by {
        assert(forall|k: int| 0 <= k < out.len() ==> out.push(clipped)[k] == out[k]);
        assert(node_in_bounds(clipped, orig, added));
    }
    lemma_render_len(out.push(clipped), orig, added);
}

/// Deleting whole nodes and trimming the front of the node the range ends
/// in: removing the nodes `[first, j)` and advancing node `j`'s start past
/// the deleted bytes renders exactly the text with `[start, end)` cut out.
#[verifier::rlimit(60)]
pub proof fn lemma_delete_trim(
    ns1: Seq<Node>,
    first: int,
    j: int,
    start: int,
    end: int,
    trimmed: Node,
    orig: Seq<u8>,
    added: Seq<u8>,
)
    requires
        nodes_in_bounds(ns1, orig, added),
        0 <= first <= j < ns1.len(),
        prefix_len(ns1, first) == start,
        start <= end,
        prefix_len(ns1, j) <= end,
        prefix_len(ns1, j) + ns1[j].len > end,
        ns1[j].start + ns1[j].len <= usize::MAX,
        trimmed == (Node {
            kind: ns1[j].kind,
            start: (ns1[j].start + (end - prefix_len(ns1, j))) as usize,
            len: (ns1[j].len - (end - prefix_len(ns1, j))) as usize,
        }),
    ensures
        ({
            let t = render(ns1, orig, added);
            let ns3 = (ns1.subrange(0, first) + ns1.subrange(j, ns1.len() as int)).update(
                first,
                trimmed,
            );
            &&& end <= t.len()
            &&& nodes_in_bounds(ns3, orig, added)
            &&& render(ns3, orig, added) == spec_delete(t, start, end)
            &&& total_len(ns3) == t.len() - (end - start)
        }),
{
    let t = render(ns1, orig, added);
    let cum = prefix_len(ns1, j);
    let m = ns1[j];
    let ns2 = ns1.subrange(0, first) + ns1.subrange(j, ns1.len() as int);
    let ns3 = ns2.update(first, trimmed);
    lemma_render_len(ns1, orig, added);
    assert(prefix_len(ns1, j + 1) == cum + m.len);
    lemma_prefix_len_mono(ns1, j + 1, ns1.len() as int);
    assert(end < t.len() || end == t.len());
    assert(nodes_in_bounds(ns2, orig, added)) by {
        assert(forall|k: int|
            0 <= k < ns2.len() ==> (#[trigger] ns2[k]) == if k < first {
                ns1[k]
            } else {
                ns1[k + (j - first)]
            });
    }
    assert(ns1.subrange(0, first) == ns1.take(first));
    assert(ns1.subrange(j, ns1.len() as int) == ns1.skip(j));
    lemma_render_concat(ns1.take(first), ns1.skip(j), orig, added);
    lemma_render_take_skip(ns1, first, orig, added);
    lemma_render_take_skip(ns1, j, orig, added);
    let s2 = render(ns2, orig, added);
    assert(s2 == t.subrange(0, start) + t.subrange(cum, t.len() as int));
    lemma_render_update(ns2, first, trimmed, orig, added);
    lemma_render_take_skip(ns2, first, orig, added);
    lemma_render_take_skip(ns2, first + 1, orig, added);
    assert(prefix_len(ns2, first) == start) by {
        lemma_prefix_len_agree(ns2, ns1, first);
    }
    assert(ns2[first] == m);
    assert(prefix_len(ns2, first + 1) == start + m.len);
    assert(render(ns2.take(first), orig, added) == s2.subrange(0, start));
    assert(s2.subrange(0, start) =~= t.subrange(0, start));
    assert(render(ns2.skip(first + 1), orig, added) == s2.subrange(start + m.len, s2.len() as int));
    assert(s2.subrange(start + m.len, s2.len() as int) =~= t.subrange(cum + m.len, t.len() as int));
    assert(node_bytes(m, orig, added) == t.subrange(cum, cum + m.len)) by {
        lemma_render_three_way(ns1, j, orig, added);
        assert(node_bytes(ns1[j], orig, added) =~= t.subrange(cum, cum + m.len));
    }
    assert(node_bytes(trimmed, orig, added) =~= t.subrange(end, cum + m.len)) by {
        assert(node_in_bounds(m, orig, added));
        assert(trimmed.start == m.start + (end - cum));
        assert(trimmed.len == m.len - (end - cum));
        assert(node_bytes(trimmed, orig, added) =~= node_bytes(m, orig, added).subrange(
            end - cum,
            m.len as int,
        ));
        assert(node_bytes(m, orig, added).subrange(end - cum, m.len as int) =~= t.subrange(
            end,
            cum + m.len,
        ));
    }
    assert(render(ns3, orig, added) == t.subrange(0, start) + t.subrange(end, cum + m.len)
        + t.subrange(cum + m.len, t.len() as int));
    assert(render(ns3, orig, added) =~= spec_delete(t, start, end));
    assert(nodes_in_bounds(ns3, orig, added)) by {
        assert(forall|k: int| 0 <= k < ns3.len() && k != first ==> (#[trigger] ns3[k]) == ns2[k]);
        assert(node_in_bounds(trimmed, orig, added)) by {
            assert(node_in_bounds(m, orig, added));
        }
    }
    lemma_render_len(ns3, orig, added);
}

/// Deleting a tail run of nodes: removing the nodes `[first, len)` renders
/// exactly the text with its tail from byte `prefix_len(ns1, first)` cut
/// off.
pub proof fn lemma_delete_tail(ns1: Seq<Node>, first: int, start: int, orig: Seq<u8>, added: Seq<u8>)
    requires
        nodes_in_bounds(ns1, orig, added),
        0 <= first <= ns1.len(),
        prefix_len(ns1, first) == start,
    ensures
        ({
            let t = render(ns1, orig, added);
            let ns2 = ns1.subrange(0, first) + ns1.subrange(
                ns1.len() as int,
                ns1.len() as int,
            );
            &&& start <= t.len()
            &&& nodes_in_bounds(ns2, orig, added)
            &&& render(ns2, orig, added) == spec_delete(t, start, t.len() as int)
            &&& total_len(ns2) == start
        }),
{
    let t = render(ns1, orig, added);
    let ns2 = ns1.subrange(0, first) + ns1.subrange(ns1.len() as int, ns1.len() as int);
    assert(ns2 =~= ns1.take(first));
    lemma_render_take_skip(ns1, first, orig, added);
    assert(nodes_in_bounds(ns2, orig, added)) by {
        assert(forall|k: int|
            0 <= k < first ==> (#[trigger] ns2[k]) == ns1[k]);
    }
    assert(render(ns2, orig, added) == t.subrange(0, start));
    assert(t.subrange(0, start) =~= spec_delete(t, start, t.len() as int));
    lemma_render_len(ns2, orig, added);
    assert(total_len(ns2) == prefix_len(ns1, first)) by {
        lemma_prefix_len_agree(ns2, ns1, first);
    }
}

/// At most one node covers any byte offset: the locator's answer is forced,
/// whatever scanning strategy produced it.
pub proof fn lemma_covering_unique(ns: Seq<Node>, offset: int, i: int, j: int)
    requires
        0 <= i < ns.len(),
        0 <= j < ns.len(),
        prefix_len(ns, i) <= offset < prefix_len(ns, i) + ns[i].len,
        prefix_len(ns, j) <= offset < prefix_len(ns, j) + ns[j].len,
    ensures
        i == j,
{
    if i < j {
        lemma_prefix_len_mono(ns, i + 1, j);
        assert(prefix_len(ns, i + 1) == prefix_len(ns, i) + ns[i].len);
    } else if j < i {
        lemma_prefix_len_mono(ns, j + 1, i);
        assert(prefix_len(ns, j + 1) == prefix_len(ns, j) + ns[j].len);
    }
}

/// The bytes of `v` in `[from, to)`, as a fresh vector.
pub fn copy_bytes(v: &Vec<u8>, from: usize, to: usize) -> (r: Vec<u8>)
    requires
        from <= to <= v@.len(),
    ensures
        r@ == v@.subrange(from as int, to as int),
{
    let mut r: Vec<u8> = Vec::new();
    let mut i: usize = from;
    proof {
        assert(r@ =~= v@.subrange(from as int, from as int));
    }
    while i < to
        invariant
            from <= i <= to <= v@.len(),
            r@ == v@.subrange(from as int, i as int),
        decreases to - i,
    {
        r.push(v[i]);
        proof {
            assert(r@ =~= v@.subrange(from as int, i + 1));
        }
        i = i + 1;
    }
    r
}

} // verus!
