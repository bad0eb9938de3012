use piece_table::PieceTable;

#[test]
fn create_slice() {
    let table = PieceTable::new("hello");
    let slice = table.create_slice();
    assert_eq!(slice.to_string(), "hello");
}

#[test]
fn slice_immutability() {
    let mut table = PieceTable::new("hello");
    {
        let slice = table.create_slice();
        assert_eq!(slice.to_string(), "hello");
    }
    table.insert(" world", 5);
    assert_eq!(table.to_string(), "hello world");
}

#[test]
fn slice_conversion() {
    let table = PieceTable::new("test");
    let slice = table.create_slice();

    assert_eq!(slice.to_string(), "test");
}

#[test]
fn slice_range() {
    let mut table = PieceTable::new("hello world");
    table.insert(" beautiful", 5);
    let slice = table.slice(6..16);

    assert_eq!(slice.len(), 10);
    assert_eq!(slice.to_string(), "beautiful ");
}

#[test]
fn slice_contiguous_range() {
    let table = PieceTable::new("hello world");
    let slice = table.slice(0..5);
    assert_eq!(slice.to_string(), "hello");

    assert_eq!(slice.len(), 5);
}

#[test]
fn multiple_slices() {
    let table = PieceTable::new("hello");
    let slice1 = table.create_slice();
    let slice2 = table.create_slice();
    let slice3 = table.slice(0..5);

    assert_eq!(slice1.to_string(), "hello");
    assert_eq!(slice2.to_string(), "hello");
    assert_eq!(slice3.to_string(), "hello");
}

#[test]
fn nested_slices() {
    let table = PieceTable::new("hello world");
    let outer = table.create_slice();
    let inner = table.slice(0..5);

    assert_eq!(outer.to_string(), "hello world");
    assert_eq!(inner.to_string(), "hello");
}

#[test]
fn empty_slice() {
    let table = PieceTable::new("");
    let slice = table.create_slice();
    assert_eq!(slice.len(), 0);
    assert_eq!(slice.to_string(), "");
}

#[test]
fn slice_of_slice() {
    let table = PieceTable::new("hello world");
    let slice1 = table.slice(0..5);
    let slice2 = slice1.slice(1..4).unwrap();

    assert_eq!(slice1.to_string(), "hello");
    assert_eq!(slice2.to_string(), "ell");
}

#[test]
fn slice_of_slice_of_slice() {
    let table = PieceTable::new("hello world");
    let slice1 = table.slice(0..11);
    let slice2 = slice1.slice(0..5).unwrap();
    let slice3 = slice2.slice(0..4).unwrap();

    assert_eq!(slice1.to_string(), "hello world");
    assert_eq!(slice2.to_string(), "hello");
    assert_eq!(slice3.to_string(), "hell");
}

#[test]
fn slice_after_modifing() {
    let mut table = PieceTable::new("hello world");
    let slice = table.slice(0..11);

    table.delete(0..11);

    assert_eq!(slice.to_string(), "hello world");
}

#[test]
fn slice_after_reallocation() {
    // Even if the added buffer's backing storage is reallocated by further
    // inserts, an earlier slice still renders the text it was taken of.
    let mut table = PieceTable::new("hello world");
    table.delete(0..11);
    table.insert("helloworld!", 0);
    table.insert(", ", 5);

    let slice = table.slice(0..13);

    let string: String = std::iter::repeat_n('a', 1024).collect();
    table.insert(&string, 5);

    assert_eq!(slice.to_string(), "hello, world!");
}
