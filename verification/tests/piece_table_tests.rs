use piece_table::PieceTable;

#[test]
fn display() {
    let string = "hello!";
    let piece_table = PieceTable::new(string);

    assert_eq!(string, piece_table.to_string());
}

#[test]
fn insert_once() {
    let original = "hello, ";
    let mut piece_table = PieceTable::new(original);

    let added = "world!";
    piece_table.insert(added, original.len());

    assert_eq!(original.to_owned() + added, piece_table.to_string());
}

#[test]
fn insert_twice() {
    let original = "hello, ";
    let added = "world";
    let second = "!";

    let mut piece_table = PieceTable::new(original);
    piece_table.insert(added, original.len());
    piece_table.insert(second, original.len() + added.len());

    assert_eq!(
        original.to_owned() + added + second,
        piece_table.to_string()
    );
}

#[test]
fn insert_once_middle() {
    let original = "hello!";
    let added = ", world";

    let mut piece_table = PieceTable::new(original);

    piece_table.insert(added, 5);

    assert_eq!(piece_table.node_count(), 3);
    assert_eq!("hello, world!", piece_table.to_string());
}

#[test]
fn insert_once_end() {
    let original = "hello";
    let added = ", world!";

    let mut piece_table = PieceTable::new(original);

    piece_table.insert(added, 5);

    assert_eq!(piece_table.node_count(), 2);
    assert_eq!("hello, world!", piece_table.to_string());
}

#[test]
fn insert_once_start() {
    let original = "bc";
    let added = "a";

    let mut piece_table = PieceTable::new(original);

    piece_table.insert(added, 0);

    assert_eq!(piece_table.node_count(), 2);
    assert_eq!("abc", piece_table.to_string());
}

#[test]
fn delete_original_whole() {
    let original = "ab";

    let mut piece_table = PieceTable::new(original);

    piece_table.delete(0..2);

    assert_eq!("", piece_table.to_string());
}

#[test]
fn delete_original_half() {
    let original = "ab";

    let mut piece_table = PieceTable::new(original);

    piece_table.delete(0..1);

    assert_eq!("b", piece_table.to_string());
}

#[test]
fn delete_original_second_half() {
    let original = "ab";

    let mut piece_table = PieceTable::new(original);

    piece_table.delete(1..2);

    assert_eq!("a", piece_table.to_string());
}

#[test]
fn delete_original_middle() {
    let original = "abc";

    let mut piece_table = PieceTable::new(original);

    piece_table.delete(1..2);

    assert_eq!("ac", piece_table.to_string());
}

#[test]
fn delete_original_two_times() {
    let original = "ab";

    let mut piece_table = PieceTable::new(original);

    piece_table.delete(0..1);
    piece_table.delete(0..1);

    assert_eq!("", piece_table.to_string());
}

#[test]
fn add_then_delete() {
    let original = "ab";

    let mut piece_table = PieceTable::new(original);

    piece_table.delete(0..1);
    piece_table.delete(0..1);
    piece_table.insert("ab", 0);

    assert_eq!("ab", piece_table.to_string());
}

#[test]
fn add_at_start() {
    let original = "world!";

    let mut piece_table = PieceTable::new(original);

    piece_table.insert("hello", 0);
    piece_table.insert(", ", 5);

    assert_eq!("hello, world!", piece_table.to_string());
    assert_eq!(3, piece_table.node_count());
}

#[test]
fn add_delete_add() {
    let original = "ab";

    let mut piece_table = PieceTable::new(original);

    piece_table.insert("c", 2);
    piece_table.delete(0..3);
    piece_table.insert("ab", 0);

    assert_eq!("ab", piece_table.to_string());
}

#[test]
fn replace() {
    let original = "hello, hello!";

    let mut piece_table = PieceTable::new(original);

    piece_table.replace("world", 7);

    assert_eq!("hello, world!", piece_table.to_string());
}

#[test]
fn eq_same_piecetables() {
    let text = "test";
    let pt1 = PieceTable::new(text);
    let pt2 = PieceTable::new(text);
    assert_eq!(pt1, pt2);
}

#[test]
fn eq_different_piecetables() {
    let pt1 = PieceTable::new("hello");
    let pt2 = PieceTable::new("world");
    assert_ne!(pt1, pt2);
}

#[test]
fn eq_piecetable_and_string() {
    let text = "test";
    let pt = PieceTable::new(text);
    assert_eq!(pt, text.to_string());
}

#[test]
fn ne_piecetable_and_string() {
    let pt = PieceTable::new("hello");
    assert_ne!(pt, "world".to_string());
}

#[test]
fn eq_piecetable_and_str() {
    let text = "test";
    let pt = PieceTable::new(text);
    assert_eq!(pt, text);
}

#[test]
fn ne_piecetable_and_str() {
    let pt = PieceTable::new("hello");
    assert_ne!(pt, "world");
}

#[test]
fn partial_ord_less() {
    let pt1 = PieceTable::new("apple");
    let pt2 = PieceTable::new("banana");
    assert!(pt1 < pt2);
}

#[test]
fn partial_ord_greater() {
    let pt1 = PieceTable::new("banana");
    let pt2 = PieceTable::new("apple");
    assert!(pt1 > pt2);
}

#[test]
fn partial_ord_equal() {
    let pt1 = PieceTable::new("apple");
    let pt2 = PieceTable::new("apple");
    assert!(pt1 <= pt2);
    assert!(pt1 >= pt2);
}

#[test]
fn byte() {
    let pt = PieceTable::new("abcd");

    assert_eq!(Some('a' as u8), pt.byte(0));
    assert_eq!(Some('b' as u8), pt.byte(1));
    assert_eq!(Some('c' as u8), pt.byte(2));
    assert_eq!(Some('d' as u8), pt.byte(3));
    assert_eq!(None, pt.byte(4));
    assert_eq!(None, pt.byte(5));
    assert_eq!(None, pt.byte(usize::MAX));
}

#[test]
fn byte_of_added() {
    let mut pt = PieceTable::new("abcd");
    pt.replace("hello!", 0);

    assert_eq!(Some('h' as u8), pt.byte(0));
    assert_eq!(Some('e' as u8), pt.byte(1));
    assert_eq!(Some('l' as u8), pt.byte(2));
    assert_eq!(Some('l' as u8), pt.byte(3));
    assert_eq!(Some('o' as u8), pt.byte(4));
    assert_eq!(Some('!' as u8), pt.byte(5));
}

#[test]
fn char() {
    let pt = PieceTable::new("abcd");

    assert_eq!(Some('a'), pt.char(0));
    assert_eq!(Some('b'), pt.char(1));
    assert_eq!(Some('c'), pt.char(2));
    assert_eq!(Some('d'), pt.char(3));
    assert_eq!(None, pt.char(4));
}

#[test]
fn char_of_added() {
    let mut pt = PieceTable::new("abcd");
    pt.replace("hello!", 0);

    assert_eq!(Some('h'), pt.char(0));
    assert_eq!(Some('e'), pt.char(1));
    assert_eq!(Some('l'), pt.char(2));
    assert_eq!(Some('l'), pt.char(3));
    assert_eq!(Some('o'), pt.char(4));
    assert_eq!(Some('!'), pt.char(5));
}
