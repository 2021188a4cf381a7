use segment_tree::nested_segments::Solution;

#[test]
fn sample_1_from_statement() {
    let segments = vec![(1, 8), (2, 3), (4, 7), (5, 6)];
    let ans = Solution::nested_segment(&segments);
    assert_eq!(ans, vec![3, 0, 1, 0]);
}

#[test]
fn sample_2_from_statement() {
    let segments = vec![(3, 4), (1, 5), (2, 6)];
    let ans = Solution::nested_segment(&segments);
    assert_eq!(ans, vec![0, 1, 1]);
}

#[test]
fn all_disjoint() {
    let segments = vec![(1, 2), (3, 4), (5, 6), (7, 8)];
    let ans = Solution::nested_segment(&segments);
    assert_eq!(ans, vec![0, 0, 0, 0]);
}

#[test]
fn chain_nesting() {
    let segments = vec![(1, 10), (2, 9), (3, 8), (4, 7), (5, 6)];
    let ans = Solution::nested_segment(&segments);
    assert_eq!(ans, vec![4, 3, 2, 1, 0]);
}

#[test]
fn mixed_signs_big_coords() {
    let segments = vec![(-10, 10), (-5, 0), (-4, -1), (-3, -2), (5, 9)];
    let ans = Solution::nested_segment(&segments);
    assert_eq!(ans, vec![4, 2, 1, 0, 0]);
}

#[test]
fn single_segment() {
    let segments = vec![(42, 100)];
    let ans = Solution::nested_segment(&segments);
    assert_eq!(ans, vec![0]);
}
