use segment_tree::tree::Tree;
use segment_tree::tree::is_bst;
use segment_tree::tree::max_path_sum;

#[test]
fn test_depth_one_tree() {
    let mut tree = Tree::with_root(10);
    tree.add_left_child(0, 5);
    tree.add_right_child(0, 22);
    assert!(is_bst(&tree));
}

#[test]
fn test_depth_two_tree() {
    let mut tree = Tree::with_root(10);
    let id_left = tree.add_left_child(0, 5);
    tree.add_left_child(id_left, 4);
    tree.add_right_child(id_left, 8);
    let id_right = tree.add_right_child(0, 22);
    tree.add_left_child(id_right, 12);
    tree.add_right_child(id_right, 30);
    assert!(is_bst(&tree));
}

#[test]
fn test_typical_counter_example() {
    let mut tree = Tree::with_root(10);
    let id_left = tree.add_left_child(0, 5);
    tree.add_right_child(id_left, 12);
    assert!(!is_bst(&tree));
}

#[test]
fn test_complex_true_bst_not_full() {
    let mut tree = Tree::with_root(15);

    // Left subtree
    let id_l = tree.add_left_child(0, 7);
    let id_l_l = tree.add_left_child(id_l, 3);
    let id_l_r = tree.add_right_child(id_l, 9);

    tree.add_left_child(id_l_l, 2);
    tree.add_right_child(id_l_l, 5);

    tree.add_left_child(id_l_r, 8);
    tree.add_right_child(id_l_r, 10);

    // Right subtree
    let id_r = tree.add_right_child(0, 23);
    let id_r_l = tree.add_left_child(id_r, 19);
    tree.add_right_child(id_r, 31);

    tree.add_left_child(id_r_l, 17);
    tree.add_right_child(id_r_l, 21);

    assert!(is_bst(&tree));
}

#[test]
fn test_complex_true_bst() {
    let mut tree = Tree::with_root(15);

    // Left subtree
    let id_l = tree.add_left_child(0, 7);
    let id_l_l = tree.add_left_child(id_l, 3);
    let id_l_r = tree.add_right_child(id_l, 9);

    tree.add_left_child(id_l_l, 2);
    tree.add_right_child(id_l_l, 5);

    tree.add_left_child(id_l_r, 8);
    tree.add_right_child(id_l_r, 10);

    // Right subtree
    let id_r = tree.add_right_child(0, 23);
    let id_r_l = tree.add_left_child(id_r, 19);
    let id_r_r = tree.add_right_child(id_r, 31);

    tree.add_left_child(id_r_l, 17);
    tree.add_right_child(id_r_l, 21);

    tree.add_left_child(id_r_r, 29);
    tree.add_right_child(id_r_r, 41);

    assert!(is_bst(&tree));
}

#[test]
fn test_complex_false_bst_ancestor_violation() {
    let mut tree = Tree::with_root(15);

    // Left subtree
    let id_l = tree.add_left_child(0, 7);
    let id_l_l = tree.add_left_child(id_l, 3);
    let id_l_r = tree.add_right_child(id_l, 9);

    tree.add_left_child(id_l_l, 2);
    tree.add_right_child(id_l_l, 5);

    tree.add_left_child(id_l_r, 8);
    tree.add_right_child(id_l_r, 10);

    // Right subtree with the violation
    let id_r = tree.add_right_child(0, 23);
    let id_r_l = tree.add_left_child(id_r, 19);
    let id_r_r = tree.add_right_child(id_r, 31);

    // Here's the subtle violation (should be > 15 because it's in root's right subtree)
    tree.add_left_child(id_r_l, 14);
    tree.add_right_child(id_r_l, 21);

    tree.add_left_child(id_r_r, 29);
    tree.add_right_child(id_r_r, 41);

    assert!(!is_bst(&tree));
}

#[test]
fn test_single_node() {
    let tree = Tree::with_root(5);
    assert_eq!(max_path_sum(&tree), i32::MIN);
}

#[test]
fn test_two_positives_leaves() {
    let mut t = Tree::with_root(1);
    t.add_left_child(0, 2);
    t.add_right_child(0, 3);
    assert_eq!(max_path_sum(&t), 6);
}

#[test]
fn test_two_negatives_leaves() {
    let mut t = Tree::with_root(1);
    t.add_left_child(0, -12);
    t.add_right_child(0, -3);
    assert_eq!(max_path_sum(&t), -14);
}

#[test]
fn test_single_positive_branch() {
    let mut t = Tree::with_root(2);
    let l = t.add_left_child(0, 5);
    t.add_left_child(l, 3);
    assert_eq!(max_path_sum(&t), i32::MIN);
}

#[test]
fn test_single_negative_branch() {
    let mut t = Tree::with_root(-2);
    let l = t.add_left_child(0, -5);
    t.add_left_child(l, -3);
    assert_eq!(max_path_sum(&t), i32::MIN);
}

#[test]
fn test_not_full_left_subtree() {
    let mut t = Tree::with_root(2);
    let l = t.add_left_child(0, -10);
    t.add_right_child(0, 3);
    t.add_left_child(l, -8);
    assert_eq!(max_path_sum(&t), -13);
}

#[test]
fn test_not_full_right_subtree() {
    let mut t = Tree::with_root(2);
    let r = t.add_left_child(0, -10);
    t.add_right_child(0, 3);
    t.add_left_child(r, -8);
    assert_eq!(max_path_sum(&t), -13);
}

#[test]
fn lib_test_depth_two_tree() {
    let mut tree = Tree::with_root(2);
    let l = tree.add_left_child(0, -10);
    tree.add_right_child(0, 3);
    tree.add_left_child(l, -8);
    tree.add_right_child(l, 7);
    assert_eq!(max_path_sum(&tree), 2);
}

#[test]
fn test_depth_two_full_tree_max_through_root() {
    let mut tree = Tree::with_root(6);
    let l = tree.add_left_child(0, -10);
    let r = tree.add_right_child(0, 13);
    tree.add_left_child(l, -3);
    tree.add_right_child(l, 7);
    tree.add_left_child(r, -1);
    tree.add_right_child(r, 12);
    assert_eq!(max_path_sum(&tree), 28);
}

#[test]
fn test_depth_two_full_tree_max_in_left_sub_tree() {
    let mut tree = Tree::with_root(6);
    let l = tree.add_left_child(0, -10);
    let r = tree.add_right_child(0, 13);
    tree.add_left_child(l, -3);
    tree.add_right_child(l, 7);
    tree.add_left_child(r, 3);
    tree.add_right_child(r, 22);
    assert_eq!(max_path_sum(&tree), 38);
}

#[test]
fn test_depth_two_full_tree_max_in_right_sub_tree() {
    let mut tree = Tree::with_root(-16);
    let l = tree.add_left_child(0, 10);
    let r = tree.add_right_child(0, 2);
    tree.add_left_child(l, 3);
    tree.add_right_child(l, 7);
    tree.add_left_child(r, 3);
    tree.add_right_child(r, 2);
    assert_eq!(max_path_sum(&tree), 20);
}

#[test]
fn test_complex_tree_max_in_subtree() {
    let mut t = Tree::with_root(-10);

    let l = t.add_left_child(0, 5);
    let l_l = t.add_left_child(l, -6);
    let l_r = t.add_right_child(l, 1);

    t.add_left_child(l_l, 2);
    t.add_right_child(l_l, 6);

    t.add_left_child(l_r, 3);
    t.add_right_child(l_r, 2);

    let r = t.add_right_child(0, 6);
    let r_l = t.add_left_child(r, 3);
    let r_r = t.add_right_child(r, 4);

    t.add_left_child(r_l, 0);

    let r_r_r = t.add_right_child(r_r, 2);
    t.add_left_child(r_r_r, 0);

    let r_r_r_r = t.add_right_child(r_r_r, -1);
    let r_r_r_r_l = t.add_left_child(r_r_r_r, 10);
    t.add_right_child(r_r_r_r_l, 2);

    assert_eq!(max_path_sum(&t), 26);
}
