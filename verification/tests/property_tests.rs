use piece_table::baseline::Baseline;
use piece_table::interface::EditableText;
use piece_table::nodekind_vec::NodeKindVec;
use piece_table::nodes::NodeKind::{Added, Original};
use piece_table::nodes::{Node, NodeKind, Nodes};
use piece_table::PieceTable;

#[derive(Debug, Clone)]
enum Op {
    Insert(&'static str, usize),
    Delete(usize, usize),
}

/// Applies one operation with offsets clamped into bounds, the way the
/// differential driver of the editing contract does.
fn do_op<T: EditableText>(doc: &mut T, op: &Op, len_before: usize) {
    match op {
        Op::Insert(text, offset) => {
            let at = (*offset).min(len_before);
            doc.insert(text, at);
        }
        Op::Delete(start, end) => {
            let mut s = (*start).min(len_before);
            let mut e = (*end).min(len_before);
            if s > e {
                std::mem::swap(&mut s, &mut e);
            }
            doc.delete(s..e);
        }
    }
}

#[test]
fn compare_implementations() {
    let ops = [
        Op::Insert("hello", 0),
        Op::Insert(", world", 5),
        Op::Delete(2, 4),
        Op::Insert("xyz", 100),
        Op::Delete(9, 3),
        Op::Insert("", 1),
        Op::Delete(0, 0),
        Op::Insert("abcdefgh", 4),
        Op::Delete(50, 0),
        Op::Insert("tail", 1000),
        Op::Delete(0, 1000),
        Op::Insert("fresh start", 0),
        Op::Delete(5, 6),
    ];

    let mut piece_table = PieceTable::new("initial text");
    let mut baseline = Baseline::new("initial text");

    for op in &ops {
        let len = piece_table.to_bytes().len();
        do_op(&mut piece_table, op, len);
        do_op(&mut baseline, op, len);

        assert_eq!(baseline.render_bytes(), piece_table.to_bytes());
    }
}

#[test]
fn length_always_matches_rendering() {
    let mut pt = PieceTable::new("the quick brown fox");
    assert_eq!(pt.len(), pt.to_bytes().len());

    pt.insert(" jumps", 19);
    assert_eq!(pt.len(), pt.to_bytes().len());

    pt.delete(4..10);
    assert_eq!(pt.len(), pt.to_bytes().len());

    pt.replace("slow", 4);
    assert_eq!(pt.len(), pt.to_bytes().len());

    pt.delete(0..pt.len());
    assert_eq!(pt.len(), 0);
    assert_eq!(pt.to_bytes().len(), 0);
    assert!(pt.is_empty());
}

#[test]
fn full_slice_renders_whole_table() {
    let mut pt = PieceTable::new("hello world");
    pt.insert(" beautiful", 5);
    pt.delete(0..2);

    let slice = pt.slice(0..pt.len());
    assert_eq!(slice.to_string(), pt.to_string());

    let snapshot = pt.create_slice();
    assert_eq!(snapshot.to_string(), pt.to_string());
}

#[test]
fn snapshot_survives_every_kind_of_mutation() {
    let mut pt = PieceTable::new("hello world");
    let snapshot = pt.create_slice();
    let partial = pt.slice(6..11);

    pt.insert("!!!", 11);
    pt.replace("HELLO", 0);
    pt.delete(0..3);
    pt.insert_char(0, 'x');

    assert_eq!(snapshot.to_string(), "hello world");
    assert_eq!(partial.to_string(), "world");
}

#[test]
fn reslice_matches_direct_slice() {
    let mut pt = PieceTable::new("hello world");
    pt.insert(" beautiful", 5);
    // document: "hello beautiful world"

    let (a, b) = (3, 18);
    let outer = pt.slice(a..b);
    for (c, d) in [(0, 15), (2, 9), (5, 5), (0, 0), (14, 15)] {
        let direct = pt.slice(a + c..a + d);
        let nested = outer.slice(c..d);
        match nested {
            Some(s) => assert_eq!(s.to_bytes(), direct.to_bytes()),
            None => assert_eq!(direct.len(), 0),
        }
    }
}

#[test]
fn tag_array_matches_plain_list() {
    let mut tags = NodeKindVec::new();
    let mut model: Vec<NodeKind> = Vec::new();

    let pushes = [Original, Added, Added, Original, Added];
    for k in pushes {
        tags.push_back(k);
        model.push(k);
    }
    tags.insert(2, Original);
    model.insert(2, Original);
    tags.insert(6, Added);
    model.insert(6, Added);
    tags.set(0, Added);
    model[0] = Added;
    tags.remove_range(1..3);
    model.drain(1..3);
    tags.remove_range(4..100);
    model.drain(4..model.len().min(100));

    assert_eq!(tags.len(), model.len());
    for i in 0..model.len() + 2 {
        assert_eq!(tags.get(i), model.get(i).copied());
    }
}

#[test]
fn tag_array_remove_range_clipping() {
    let mut tags = NodeKindVec::new();
    for k in [Original, Added, Original, Added] {
        tags.push_back(k);
    }

    // A reversed range removes nothing.
    tags.remove_range(3..1);
    assert_eq!(tags.len(), 4);

    // A range starting past the end removes nothing.
    tags.remove_range(9..12);
    assert_eq!(tags.len(), 4);

    // An end past the length is treated as the length.
    tags.remove_range(2..77);
    assert_eq!(tags.len(), 2);
    assert_eq!(tags.get(0), Some(Original));
    assert_eq!(tags.get(1), Some(Added));
}

#[test]
fn node_store_remove_range() {
    let mut nodes = Nodes::new();
    for i in 0..5 {
        nodes.push(Node::new(NodeKind::Original, i * 10, 10));
    }

    nodes.remove_range(1..3);
    assert_eq!(nodes.len(), 3);
    assert_eq!(nodes.get(0).unwrap().start, 0);
    assert_eq!(nodes.get(1).unwrap().start, 30);
    assert_eq!(nodes.get(2).unwrap().start, 40);

    nodes.remove_range(2..2);
    assert_eq!(nodes.len(), 3);

    nodes.remove_range(1..99);
    assert_eq!(nodes.len(), 1);
    assert_eq!(nodes.get(0).unwrap().start, 0);
}

#[test]
fn node_accessors() {
    let node = Node::new(NodeKind::Added, 7, 5);
    assert_eq!(node.end(), 12);
    let range = node.range();
    assert_eq!(range.start, 7);
    assert_eq!(range.end, 12);
}

#[test]
fn locator_agrees_with_linear_scan_on_many_nodes() {
    // One hundred forty single-byte pieces exercise the sixty-four-wide
    // and eight-wide lanes of the locator as well as the scalar tail.
    let mut pt = PieceTable::new("");
    let pieces = [
        "a", "b", "c", "d", "e", "f", "g", "h", "i", "j", "k", "l", "m", "n",
    ];
    for round in 0..10 {
        for (i, p) in pieces.iter().enumerate() {
            pt.insert(p, round * pieces.len() + i);
        }
    }
    assert_eq!(pt.len(), 140);
    let rendered = pt.to_bytes();
    assert_eq!(rendered.len(), 140);
    for i in 0..140 {
        assert_eq!(pt.byte(i), Some(rendered[i]));
    }
    assert_eq!(pt.byte(140), None);
}

#[test]
fn insert_char_ascii_and_multibyte() {
    let mut pt = PieceTable::new("helo");
    pt.insert_char(2, 'l');
    assert_eq!(pt.to_string(), "hello");

    let mut pt = PieceTable::new("world");
    pt.insert_char(0, ' ');
    assert_eq!(pt.to_string(), " world");

    let mut pt = PieceTable::new("caf");
    pt.insert_char(3, 'é');
    assert_eq!(pt.to_string(), "café");
    assert_eq!(pt.len(), 5);

    let mut pt = PieceTable::new("");
    pt.insert_char(0, '\u{1F600}');
    assert_eq!(pt.len(), 4);
    assert_eq!(pt.char(0), Some('\u{1F600}'));
}

#[test]
fn char_on_multibyte_boundaries() {
    let pt = PieceTable::new("aéz");
    assert_eq!(pt.char(0), Some('a'));
    assert_eq!(pt.char(1), Some('é'));
    // Byte 2 is the continuation byte of 'é': no character starts there.
    assert_eq!(pt.char(2), None);
    assert_eq!(pt.char(3), Some('z'));
    assert_eq!(pt.char(4), None);
}

#[test]
fn delete_ending_exactly_at_node_end() {
    let mut pt = PieceTable::new("abc");
    pt.delete(2..3);
    assert_eq!(pt.to_string(), "ab");

    let mut pt = PieceTable::new("abcd");
    pt.insert("XY", 2);
    // document: "abXYcd"; delete across the node boundary, ending at one.
    pt.delete(1..4);
    assert_eq!(pt.to_string(), "acd");
}

#[test]
fn delete_across_many_nodes() {
    let mut pt = PieceTable::new("0123456789");
    pt.insert("aa", 2);
    pt.insert("bb", 6);
    pt.insert("cc", 10);
    assert_eq!(pt.to_string(), "01aa23bb45cc6789");
    pt.delete(3..13);
    assert_eq!(pt.to_string(), "01a789");
    assert_eq!(pt.len(), 6);
}

#[test]
fn insert_past_end_appends() {
    let mut pt = PieceTable::new("ab");
    pt.insert("cd", 17);
    assert_eq!(pt.to_string(), "abcd");

    let mut pt = PieceTable::new("");
    pt.insert("first", 3);
    assert_eq!(pt.to_string(), "first");
}

#[test]
fn replace_on_short_tail() {
    // The replaced range is clamped to the end of the document.
    let mut pt = PieceTable::new("abcd");
    pt.replace("hello!", 0);
    assert_eq!(pt.to_string(), "hello!");

    let mut pt = PieceTable::new("");
    pt.replace("x", 0);
    assert_eq!(pt.to_string(), "x");
}

#[test]
fn baseline_matches_plain_string_editing() {
    let mut b = Baseline::new("hello!");
    assert_eq!(b.render_bytes(), b"hello!".to_vec());
    b.insert(", world", 5);
    assert_eq!(b.render_bytes(), b"hello, world!".to_vec());
    b.delete(0..5);
    assert_eq!(b.render_bytes(), b", world!".to_vec());
}

#[test]
fn slice_with_reversed_or_outsized_range() {
    let pt = PieceTable::new("hello");
    assert_eq!(pt.slice(4..2).len(), 0);
    assert_eq!(pt.slice(0..99).to_string(), "hello");
    assert_eq!(pt.slice(99..100).len(), 0);
}
