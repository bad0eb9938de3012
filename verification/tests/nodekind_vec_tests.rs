use piece_table::nodekind_vec::NodeKindVec;
use piece_table::nodes::NodeKind::{Added, Original};

#[test]
fn is_empty() {
    let vec = NodeKindVec::new();
    assert!(vec.is_empty());
}

#[test]
fn push_back_one_original() {
    let mut vec = NodeKindVec::new();

    vec.push_back(Original);

    assert!(!vec.is_empty());
    assert_eq!(Original, vec.get(0).unwrap());
}

#[test]
fn push_back_one_added() {
    let mut vec = NodeKindVec::new();

    vec.push_back(Added);

    assert!(!vec.is_empty());
    assert_eq!(Added, vec.get(0).unwrap());
}

#[test]
fn push_back_two() {
    let mut vec = NodeKindVec::new();

    vec.push_back(Added);
    vec.push_back(Added);

    assert_eq!(Added, vec.get(0).unwrap());
    assert_eq!(Added, vec.get(1).unwrap());
}

#[test]
fn insert_at_the_end() {
    let mut vec = NodeKindVec::new();

    vec.insert(0, Added);
    vec.insert(1, Added);

    assert_eq!(Added, vec.get(0).unwrap());
    assert_eq!(Added, vec.get(1).unwrap());
}

#[test]
fn set() {
    let mut vec = NodeKindVec::new();

    vec.insert(0, Added);
    vec.set(0, Original);

    assert_eq!(Original, vec.get(0).unwrap());
}

#[test]
fn set_two_times() {
    let mut vec = NodeKindVec::new();

    vec.insert(0, Added);
    vec.set(0, Original);
    vec.set(0, Added);

    assert_eq!(Added, vec.get(0).unwrap());
}

#[test]
fn shift_right() {
    let mut vec = NodeKindVec::new();

    vec.insert(0, Added);
    vec.shift_right(0);

    assert_eq!(Added, vec.get(0).unwrap());
    assert_eq!(Added, vec.get(1).unwrap());
}

#[test]
fn shift_right_same_value() {
    let mut vec = NodeKindVec::new();

    vec.insert(0, Added);
    vec.insert(1, Added);
    vec.shift_right(0);

    assert_eq!(Added, vec.get(0).unwrap());
    assert_eq!(Added, vec.get(1).unwrap());
    assert_eq!(Added, vec.get(2).unwrap());
}

#[test]
fn shift_right_start() {
    let mut vec = NodeKindVec::new();

    vec.insert(0, Added);
    vec.insert(1, Original);
    vec.shift_right(0);

    assert_eq!(Added, vec.get(0).unwrap());
    assert_eq!(Added, vec.get(1).unwrap());
    assert_eq!(Original, vec.get(2).unwrap());
}

#[test]
fn shift_right_more_than_one_word() {
    let mut vec = NodeKindVec::new();

    for i in 0..63 {
        let kind = if i % 2 == 0 { Added } else { Original };
        vec.push_back(kind);
    }

    vec.shift_right(0);

    assert_eq!(Added, vec.get(0).unwrap());
    for i in 1..vec.len() {
        let kind = if (i - 1) % 2 == 0 { Added } else { Original };
        assert_eq!(kind, vec.get(i).unwrap());
    }
}

#[test]
fn push_back_then_insert() {
    let mut vec = NodeKindVec::new();

    vec.push_back(Added);
    vec.push_back(Added);
    vec.insert(0, Added);

    assert_eq!(Added, vec.get(0).unwrap());
    assert_eq!(Added, vec.get(1).unwrap());
}

#[test]
fn insert_at_beginning() {
    let mut vec = NodeKindVec::new();

    vec.push_back(Original);
    vec.push_back(Added);
    vec.insert(0, Added);

    assert_eq!(Added, vec.get(0).unwrap());
    assert_eq!(Original, vec.get(1).unwrap());
    assert_eq!(Added, vec.get(2).unwrap());
}

#[test]
fn insert_in_middle() {
    let mut vec = NodeKindVec::new();

    vec.push_back(Added);
    vec.push_back(Original);
    vec.push_back(Added);
    vec.insert(1, Added);

    assert_eq!(Added, vec.get(0).unwrap());
    assert_eq!(Added, vec.get(1).unwrap());
    assert_eq!(Original, vec.get(2).unwrap());
    assert_eq!(Added, vec.get(3).unwrap());
}

#[test]
fn insert_multiple_times() {
    let mut vec = NodeKindVec::new();

    vec.push_back(Added);
    vec.insert(0, Original);
    vec.insert(0, Added);
    vec.insert(1, Original);

    assert_eq!(Added, vec.get(0).unwrap());
    assert_eq!(Original, vec.get(1).unwrap());
    assert_eq!(Original, vec.get(2).unwrap());
    assert_eq!(Added, vec.get(3).unwrap());
}

#[test]
fn insert_beyond_word_boundary() {
    let mut vec = NodeKindVec::new();

    for i in 0..64 {
        vec.push_back(if i % 2 == 0 { Added } else { Original });
    }

    vec.insert(0, Original);

    assert_eq!(Original, vec.get(0).unwrap());
    assert_eq!(Added, vec.get(1).unwrap());
    assert_eq!(Original, vec.get(2).unwrap());
    assert_eq!(Added, vec.get(3).unwrap());

    for i in 1..65 {
        let expected = if (i - 1) % 2 == 0 { Added } else { Original };
        assert_eq!(expected, vec.get(i).unwrap(), "Mismatch at index {}", i);
    }
}

#[test]
fn large_insertion_sequence() {
    let mut vec = NodeKindVec::new();

    vec.push_back(Added);
    vec.push_back(Added);

    vec.insert(0, Original);
    assert_eq!(Original, vec.get(0).unwrap());
    assert_eq!(Added, vec.get(1).unwrap());
    assert_eq!(Added, vec.get(2).unwrap());

    vec.insert(2, Original);
    assert_eq!(Original, vec.get(0).unwrap());
    assert_eq!(Added, vec.get(1).unwrap());
    assert_eq!(Original, vec.get(2).unwrap());
    assert_eq!(Added, vec.get(3).unwrap());
}

#[test]
fn get_out_of_bounds() {
    let mut vec = NodeKindVec::new();

    vec.push_back(Added);
    vec.push_back(Original);

    assert_eq!(Some(Added), vec.get(0));
    assert_eq!(Some(Original), vec.get(1));
    assert_eq!(None, vec.get(2));
    assert_eq!(None, vec.get(100));
}

#[test]
fn empty_vector_operations() {
    let mut vec = NodeKindVec::new();

    assert_eq!(0, vec.len());
    assert!(vec.is_empty());
    assert_eq!(None, vec.get(0));

    vec.push_back(Original);
    assert_eq!(1, vec.len());
    assert!(!vec.is_empty());
    assert_eq!(Some(Original), vec.get(0));
}

#[test]
fn alternating_pattern_insert() {
    let mut vec = NodeKindVec::new();

    for i in 0..6 {
        vec.push_back(if i % 2 == 0 { Added } else { Original });
    }

    vec.insert(2, Original);

    assert_eq!(Added, vec.get(0).unwrap());
    assert_eq!(Original, vec.get(1).unwrap());
    assert_eq!(Original, vec.get(2).unwrap());
    assert_eq!(Added, vec.get(3).unwrap());
    assert_eq!(Original, vec.get(4).unwrap());
    assert_eq!(Added, vec.get(5).unwrap());
    assert_eq!(Original, vec.get(6).unwrap());
}

#[test]
fn insert_at_end_equivalent_to_push() {
    let mut vec1 = NodeKindVec::new();
    let mut vec2 = NodeKindVec::new();

    vec1.push_back(Added);
    vec1.push_back(Original);
    vec2.push_back(Added);
    vec2.push_back(Original);

    vec1.insert(2, Added);
    vec2.push_back(Added);

    assert_eq!(vec1.len(), vec2.len());
    for i in 0..vec1.len() {
        assert_eq!(vec1.get(i), vec2.get(i), "Mismatch at index {}", i);
    }
}
