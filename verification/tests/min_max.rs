use segment_tree::min_max::MaxSegmentTree;

#[test]
fn test_small_array_build() {
    let mut tree = MaxSegmentTree::build(&[7, 10, 2, 21]);

    assert_eq!(21, tree.query(0, 3));
    assert_eq!(10, tree.query(0, 1));
    assert_eq!(21, tree.query(2, 3));
    assert_eq!(7, tree.query(0, 0));
    assert_eq!(10, tree.query(1, 1));
    assert_eq!(2, tree.query(2, 2));
    assert_eq!(21, tree.query(3, 3));
}

#[test]
fn test_medium_array_build() {
    let mut tree = MaxSegmentTree::build(&[8, 2, 6, 21, 18, 15, 2, 31, 4, 16]);

    // Leaf
    assert_eq!(8, tree.query(0, 0));
    assert_eq!(2, tree.query(1, 1));
    assert_eq!(6, tree.query(2, 2));
    assert_eq!(21, tree.query(3, 3));
    assert_eq!(18, tree.query(4, 4));
    assert_eq!(15, tree.query(5, 5));
    assert_eq!(2, tree.query(6, 6));
    assert_eq!(31, tree.query(7, 7));
    assert_eq!(4, tree.query(8, 8));
    assert_eq!(16, tree.query(9, 9));

    assert_eq!(8, tree.query(0, 1));
    assert_eq!(6, tree.query(1, 2));
    assert_eq!(21, tree.query(3, 4));
    assert_eq!(15, tree.query(5, 6));
    assert_eq!(31, tree.query(6, 7));
    assert_eq!(16, tree.query(8, 9));

    assert_eq!(8, tree.query(0, 2));
    assert_eq!(21, tree.query(0, 3));
    assert_eq!(21, tree.query(0, 4));
    assert_eq!(21, tree.query(3, 4));
    assert_eq!(31, tree.query(5, 7));
    assert_eq!(16, tree.query(8, 9));
    assert_eq!(31, tree.query(5, 9));

    assert_eq!(31, tree.query(0, 9));
    assert_eq!(31, tree.query(2, 9));
    assert_eq!(31, tree.query(4, 9));
    assert_eq!(31, tree.query(7, 9));
}

#[test]
fn hands_on_example() {
    let mut tree = MaxSegmentTree::build(&[5, 1, 4, 3, 2]);

    tree.range_update(0, 1, 2);
    assert_eq!(4, tree.query(1, 3));
    assert_eq!(2, tree.query(0, 1));
}

#[test]
fn test_range_update_right_child_root() {
    let mut tree = MaxSegmentTree::build(&[8, 2, 6, 21, 18, 15, 2, 31, 4, 16]);

    tree.range_update(5, 9, 2);
    assert_eq!(21, tree.query(0, 9));
}

#[test]
fn test_range_update_leaf() {
    let mut tree = MaxSegmentTree::build(&[8, 2, 6, 21, 18, 15, 2, 31, 4, 16]);

    tree.range_update(7, 7, 2);
    assert_eq!(21, tree.query(0, 9));
}

#[test]
fn lib_test_range_update_propagation_until_leaf() {
    let mut tree = MaxSegmentTree::build(&[8, 2, 6, 21, 18, 15, 2, 31, 4, 16]);

    tree.range_update(4, 9, 2);
    assert_eq!(2, tree.query(5, 7));
    assert_eq!(2, tree.query(5, 6));
    assert_eq!(2, tree.query(5, 5));
    assert_eq!(2, tree.query(6, 6));
}

#[test]
fn test_range_update_internal_propagation_until_leaf() {
    let mut tree = MaxSegmentTree::build(&[8, 2, 6, 21, 18, 15, 2, 31, 4, 16]);

    tree.range_update(4, 9, 2);
    //[5,9] updated
    assert_eq!(2, tree.node_value(10));
    assert_eq!(None, tree.pending_at(10));
    //[5, 7] still not updated but lazy update recorded
    assert_eq!(31, tree.node_value(11));
    assert_eq!(2, tree.pending_at(11).unwrap());
    //[8,9] still not updated but lazy update recorded
    assert_eq!(16, tree.node_value(16));
    assert_eq!(2, tree.pending_at(16).unwrap());

    assert_eq!(2, tree.query(5, 7));
    //[5,7] updated
    assert_eq!(2, tree.node_value(11));
    assert_eq!(None, tree.pending_at(11));
    //[5, 6] still not updated but lazy update recorded
    assert_eq!(15, tree.node_value(12));
    assert_eq!(2, tree.pending_at(12).unwrap());
    //[7, 7] still not updated but lazy update recorded
    assert_eq!(31, tree.node_value(15));
    assert_eq!(2, tree.pending_at(15).unwrap());

    assert_eq!(2, tree.query(5, 6));
    //[5,6] updated
    assert_eq!(2, tree.node_value(12));
    assert_eq!(None, tree.pending_at(12));
    //[6, 6] still not updated but lazy update recorded
    assert_eq!(15, tree.node_value(13));
    assert_eq!(2, tree.pending_at(13).unwrap());
    //[7, 7] still not updated but lazy update recorded
    assert_eq!(2, tree.node_value(14));
    assert_eq!(2, tree.pending_at(14).unwrap());

    assert_eq!(2, tree.query(8, 9));
    //[8, 9] updated
    assert_eq!(2, tree.node_value(16));
    assert_eq!(None, tree.pending_at(16));
    //[8, 8] still not updated but lazy update recorded
    assert_eq!(4, tree.node_value(17));
    assert_eq!(2, tree.pending_at(17).unwrap());
    //[9, 9] still not updated but lazy update recorded
    assert_eq!(16, tree.node_value(18));
    assert_eq!(2, tree.pending_at(18).unwrap());

    assert_eq!(2, tree.query(8, 8));

    assert_eq!(2, tree.query(9, 9));
}

#[test]
fn test_range_update_directly_leaf_of_lazy_update() {
    let mut tree = MaxSegmentTree::build(&[8, 2, 6, 21, 18, 15, 2, 31, 4, 16]);

    tree.range_update(4, 9, 2);
    assert_eq!(2, tree.query(6, 6));
    assert_eq!(2, tree.query(5, 5));
}
