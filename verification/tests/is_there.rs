use segment_tree::is_there::SegmentSet;
use segment_tree::is_there::HashSetSegmentTree;

#[test]
fn simple_test() {
    let segment_set = SegmentSet::build(&[(0, 4), (1, 3), (1, 2), (1, 1), (0, 0)]);

    assert!(segment_set.is_there(0, 4, 4));
    assert!(!segment_set.is_there(0, 4, 0));
    assert!(!segment_set.is_there(1, 3, 1));
    assert!(segment_set.is_there(1, 4, 1));
}

#[test]
fn membership_over_ranges() {
    let tree = HashSetSegmentTree::build(&[5, 3, 9, 3, 7]);
    assert!(tree.is_value_present(0, 4, 9));
    assert!(tree.is_value_present(1, 3, 3));
    assert!(!tree.is_value_present(0, 1, 9));
    assert!(!tree.is_value_present(3, 4, 5));
    assert!(!tree.is_value_present(3, 2, 7));
}
