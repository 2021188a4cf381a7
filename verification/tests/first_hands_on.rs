use segment_tree::first_hands_on::Tree;
use segment_tree::first_hands_on::is_bst;

#[test]
fn lib_test_depth_one_tree() {
    let mut tree = Tree::with_root(10);
    tree.add_left_child(0, 5);
    tree.add_right_child(0, 22);
    assert!(is_bst(&tree));
}

#[test]
fn first_hands_on_test_depth_two_tree() {
    let mut tree = Tree::with_root(10);
    let id_left = tree.add_left_child(0, 5);
    tree.add_left_child(id_left, 4);
    tree.add_right_child(id_left, 8);
    let id_right = tree.add_right_child(0, 22);
    tree.add_left_child(id_right, 12);
    tree.add_right_child(id_right, 30);
    assert!(is_bst(&tree));
}

#[test]
fn lib_test_typical_counter_example() {
    let mut tree = Tree::with_root(10);
    let id_left = tree.add_left_child(0, 5);
    tree.add_right_child(id_left, 12);
    assert!(!is_bst(&tree));
}

#[test]
fn lib_test_complex_true_bst_not_full() {
    let mut tree = Tree::with_root(15);

    // Left subtree
    let id_l = tree.add_left_child(0, 7);
    let id_l_l = tree.add_left_child(id_l, 3);
    let id_l_r = tree.add_right_child(id_l, 9);

    tree.add_left_child(id_l_l, 2);
    tree.add_right_child(id_l_l, 5);

    tree.add_left_child(id_l_r, 8);
    tree.add_right_child(id_l_r, 10);

    // Right subtree
    let id_r = tree.add_right_child(0, 23);
    let id_r_l = tree.add_left_child(id_r, 19);
    tree.add_right_child(id_r, 31);

    tree.add_left_child(id_r_l, 17);
    tree.add_right_child(id_r_l, 21);

    assert!(is_bst(&tree));
}

#[test]
fn lib_test_complex_true_bst() {
    let mut tree = Tree::with_root(15);

    // Left subtree
    let id_l = tree.add_left_child(0, 7);
    let id_l_l = tree.add_left_child(id_l, 3);
    let id_l_r = tree.add_right_child(id_l, 9);

    tree.add_left_child(id_l_l, 2);
    tree.add_right_child(id_l_l, 5);

    tree.add_left_child(id_l_r, 8);
    tree.add_right_child(id_l_r, 10);

    // Right subtree
    let id_r = tree.add_right_child(0, 23);
    let id_r_l = tree.add_left_child(id_r, 19);
    let id_r_r = tree.add_right_child(id_r, 31);

    tree.add_left_child(id_r_l, 17);
    tree.add_right_child(id_r_l, 21);

    tree.add_left_child(id_r_r, 29);
    tree.add_right_child(id_r_r, 41);

    assert!(is_bst(&tree));
}

#[test]
fn lib_test_complex_false_bst_ancestor_violation() {
    let mut tree = Tree::with_root(15);

    // Left subtree
    let id_l = tree.add_left_child(0, 7);
    let id_l_l = tree.add_left_child(id_l, 3);
    let id_l_r = tree.add_right_child(id_l, 9);

    tree.add_left_child(id_l_l, 2);
    tree.add_right_child(id_l_l, 5);

    tree.add_left_child(id_l_r, 8);
    tree.add_right_child(id_l_r, 10);

    // Right subtree with the violation
    let id_r = tree.add_right_child(0, 23);
    let id_r_l = tree.add_left_child(id_r, 19);
    let id_r_r = tree.add_right_child(id_r, 31);

    // the subtle violation (should be > 15 in the root's right subtree)
    tree.add_left_child(id_r_l, 14);
    tree.add_right_child(id_r_l, 21);

    tree.add_left_child(id_r_r, 29);
    tree.add_right_child(id_r_r, 41);

    assert!(!is_bst(&tree));
}
