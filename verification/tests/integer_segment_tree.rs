use segment_tree::integer_segment_tree::IntegerSegmentTree;
use segment_tree::integer_segment_tree::MergeOp;

#[test]
fn test_creation() {
    let result = IntegerSegmentTree::build(&[3, 4, 5, 3, 8, 12, -4], 0, MergeOp::Sum);
    assert_eq!(31, result.get_index(0));
    assert_eq!(15, result.get_index(1));
    assert_eq!(16, result.get_index(8));
    assert_eq!(7, result.get_index(2));
    assert_eq!(8, result.get_index(5));
    assert_eq!(20, result.get_index(9));
    assert_eq!(3, result.get_index(3));
    assert_eq!(4, result.get_index(4));
    assert_eq!(5, result.get_index(6));
    assert_eq!(3, result.get_index(7));
    assert_eq!(8, result.get_index(10));
    assert_eq!(12, result.get_index(11));
    assert_eq!(-4, result.get_index(12));
}

#[test]
fn test_query_even_n_even() {
    let mut result = IntegerSegmentTree::build(&[3, 4, 5, 3, 2], 0, MergeOp::Sum);
    assert_eq!(9, result.query(1, 2));
}

#[test]
fn test_query_even_n_odd() {
    let mut result = IntegerSegmentTree::build(&[3, 4, 5, 3, 2, 6, 2, 1], 0, MergeOp::Sum);
    assert_eq!(16, result.query(2, 5));
}

#[test]
fn test_query_odd_n_odd() {
    let mut result = IntegerSegmentTree::build(&[3, 4, 5, 3, 8, 12, -4], 0, MergeOp::Sum);
    assert_eq!(16, result.query(4, 6));
}

#[test]
fn test_query_odd_n_even() {
    let mut result = IntegerSegmentTree::build(&[3, 4, 5, 3, 8, 12, -4, 5], 0, MergeOp::Sum);
    assert_eq!(8, result.query(2, 3));
}

#[test]
fn test_min_query() {
    let mut result = IntegerSegmentTree::build(&[3, 4, 5, 3, 8, 12, -4, 5], i32::MAX, MergeOp::Min);
    assert_eq!(3, result.query(1, 4));
}

#[test]
fn test_add() {
    let mut result = IntegerSegmentTree::build(&[3, 4, 5, 3, 8, 12, -4], 0, MergeOp::Sum);
    result.add(4, -8);
    assert_eq!(23, result.get_index(0));
    assert_eq!(15, result.get_index(1));
    assert_eq!(8, result.get_index(8));
    assert_eq!(7, result.get_index(2));
    assert_eq!(8, result.get_index(5));
    assert_eq!(12, result.get_index(9));
    assert_eq!(3, result.get_index(3));
    assert_eq!(4, result.get_index(4));
    assert_eq!(5, result.get_index(6));
    assert_eq!(3, result.get_index(7));
    assert_eq!(0, result.get_index(10));
    assert_eq!(12, result.get_index(11));
    assert_eq!(-4, result.get_index(12));
}

#[test]
fn test_multiple_add() {
    let mut result = IntegerSegmentTree::build_empty(10, 0, MergeOp::Sum);
    result.add(0, 1);
    result.add(1, 1);
    result.add(2, 1);
    result.add(3, 1);
    result.add(4, 1);

    assert_eq!(1, result.query(4, 5));
}

#[test]
fn test_range_update() {
    let mut result = IntegerSegmentTree::build_empty(10, 0, MergeOp::Sum);
    result.range_update(0, 5, 5);

    assert_eq!(30, result.query(0, 5));
}

#[test]
fn test_range_update_directly_child_of_lazy_node() {
    let mut result = IntegerSegmentTree::build_empty(10, 0, MergeOp::Sum);
    result.range_update(0, 5, 5);

    assert_eq!(15, result.query(0, 2));
}

#[test]
fn test_range_update_directly_leaf() {
    let mut result = IntegerSegmentTree::build_empty(10, 0, MergeOp::Sum);
    result.range_update(0, 5, 5);

    assert_eq!(5, result.query(4, 4));
}

#[test]
fn integer_segment_tree_test_range_update_propagation_until_leaf() {
    let mut result = IntegerSegmentTree::build_empty(10, 0, MergeOp::Sum);
    result.range_update(0, 5, 5);

    assert_eq!(30, result.query(0, 5));
    assert_eq!(15, result.query(0, 2));
    assert_eq!(10, result.query(0, 1));
    assert_eq!(5, result.query(1, 1));
    assert_eq!(5, result.query(0, 0));
    assert_eq!(5, result.query(2, 2));
}

#[test]
fn test_range_update_max() {
    let mut result = IntegerSegmentTree::build_empty(10, 0, MergeOp::Max);
    result.range_update(0, 5, 10);

    //[10, 10, 10, 10, 10, 10, 0, 0, 0, 0]
    assert_eq!(10, result.query(0, 5));
}

#[test]
fn test_range_update_max_directly_child_of_lazy_node() {
    let mut result = IntegerSegmentTree::build_empty(10, 0, MergeOp::Max);
    result.range_update(0, 5, 10);

    //[10, 10, 10, 10, 10, 10, 0, 0, 0, 0]
    assert_eq!(10, result.query(0, 2));
}

#[test]
fn test_range_update_max_directly_leaf_of_to() {
    let mut result = IntegerSegmentTree::build_empty(10, 0, MergeOp::Max);
    result.range_update(0, 5, 10);

    //[10, 10, 10, 10, 10, 10, 0, 0, 0, 0]
    assert_eq!(10, result.query(4, 4));
    assert_eq!(10, result.query(3, 3));
}

#[test]
fn test_range_update_existing_elem() {
    let mut result = IntegerSegmentTree::build(&[10, 11, 34, 2, 23], 0, MergeOp::Max);
    assert_eq!(34, result.query(0, 4));

    result.range_update(3, 4, 45);

    assert_eq!(45, result.query(0, 4));
    assert_eq!(34, result.query(0, 2));
}

#[test]
fn test_multiple_range_update() {
    let mut result = IntegerSegmentTree::build_empty(10, 0, MergeOp::Max);
    result.range_update(0, 5, 10);
    result.range_update(2, 5, 20);

    //[10, 10, 10, 20, 20, 20, 0, 0, 0, 0]
    assert_eq!(20, result.query(4, 4));
    assert_eq!(10, result.query(1, 1));
}

#[test]
fn test_multiple_range_update_first_greater() {
    let mut result = IntegerSegmentTree::build_empty(10, 0, MergeOp::Max);
    result.range_update(0, 5, 20);
    result.range_update(2, 5, 10);

    //[10, 10, 10, 20, 20, 20, 0, 0, 0, 0]
    assert_eq!(20, result.query(4, 4));
    assert_eq!(20, result.query(1, 1));
}
