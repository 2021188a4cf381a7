use segment_tree::subarray_sum;
use segment_tree::duplicate_element::FirstSolution;
use segment_tree::house_robber;
use segment_tree::maximize_distance::BsSolution;
use segment_tree::maximize_distance::LinearSolution;
use segment_tree::minimum_path_sum;
use segment_tree::lcs;
use segment_tree::lis;
use segment_tree::partition;
use segment_tree::wilbur::min_steps;
use segment_tree::max_subarray;
use segment_tree::trapping_rain_water;
use segment_tree::integers_covered;

#[test]
fn lib_test_1() {
    assert!(subarray_sum::Solution::check_subarray_sum(vec![23, 2, 4, 6, 7], 7));
}

#[test]
fn lib_test_2() {
    assert!(subarray_sum::Solution::check_subarray_sum(vec![5, 0, 0, 0], 3));
}

#[test]
fn lib_test_3() {
    assert!(!subarray_sum::Solution::check_subarray_sum(vec![1, 0], 2));
}

#[test]
fn test_not_even() {
    assert_eq!(FirstSolution::find_duplicate(vec![1, 2, 3, 2, 4]), 2);
}

#[test]
fn test_even() {
    assert_eq!(FirstSolution::find_duplicate(vec![1, 2, 3, 2]), 2);
}

#[test]
fn test_3() {
    assert_eq!(FirstSolution::find_duplicate(vec![3, 1, 3, 4, 2]), 3);
}

#[test]
fn test_1() {
    assert_eq!(FirstSolution::find_duplicate(vec![1, 3, 4, 2, 1]), 1);
}

#[test]
fn test_4() {
    assert_eq!(FirstSolution::find_duplicate(vec![1, 3, 4, 2, 4]), 4);
}

#[test]
fn lib_test_case_1() {
    assert_eq!(4, house_robber::Solution::rob_with_dag(vec![1, 2, 3, 1]));
}

#[test]
fn house_robber_scan() {
    assert_eq!(4, house_robber::Solution::rob(vec![1, 2, 3, 1]));
    assert_eq!(12, house_robber::Solution::rob(vec![2, 7, 9, 3, 1]));
}

#[test]
fn check_d2() {
    assert_eq!(
        2,
        BsSolution::max_dist_to_closest(Vec::from([1, 0, 0, 0, 1, 0, 1]))
    );
    assert_eq!(
        2,
        LinearSolution::max_dist_to_closest(Vec::from([1, 0, 0, 0, 1, 0, 1]))
    );
}

#[test]
fn check_one_people() {
    assert_eq!(3, BsSolution::max_dist_to_closest(Vec::from([1, 0, 0, 0])));
    assert_eq!(
        3,
        LinearSolution::max_dist_to_closest(Vec::from([1, 0, 0, 0]))
    );
}

#[test]
fn test_case_1() {
    assert_eq!(
        7,
        minimum_path_sum::Solution::min_path_sum_dag(vec![vec![1, 3, 1], vec![1, 5, 1], vec![4, 2, 1]])
    );
    assert_eq!(
        7,
        minimum_path_sum::Solution::min_path_sum(vec![vec![1, 3, 1], vec![1, 5, 1], vec![4, 2, 1]])
    );
}

#[test]
fn lib_test_case_2() {
    assert_eq!(
        12,
        minimum_path_sum::Solution::min_path_sum_dag(vec![vec![1, 2, 3], vec![4, 5, 6]])
    );
    assert_eq!(
        12,
        minimum_path_sum::Solution::min_path_sum(vec![vec![1, 2, 3], vec![4, 5, 6]])
    );
}

#[test]
fn test_case_3() {
    assert_eq!(
        3,
        lcs::Solution::longest_common_subsequence("abcde".to_string(), "ace".to_string())
    );
}

#[test]
fn lis_test_case_1() {
    assert_eq!(4, lis::Solution::length_of_lis(&[10, 9, 2, 5, 3, 7, 101, 18]));
}

#[test]
fn partition_test_case_1() {
    assert!(partition::Solution::can_partition(vec![1, 5, 11, 5]));
    assert!(partition::Solution::can_partition_2_rows(vec![1, 5, 11, 5]));
}

#[test]
fn test_case_2() {
    assert!(!partition::Solution::can_partition(vec![1, 2, 3, 5]));
    assert!(!partition::Solution::can_partition_2_rows(vec![1, 2, 3, 5]));
}

#[test]
fn wilbur_test_1() {
    assert_eq!(min_steps(&[1, 2, 3, 4, 5]), 5);
}

#[test]
fn test_2() {
    assert_eq!(min_steps(&[1, 2, 2, 1]), 3);
}

#[test]
fn msub_test_1() {
    let result = max_subarray::Solution::max_sub_array(vec![-2, 1, -3, 4, -1, 2, 1, -5, 4]);
    assert_eq!(result, 6);
}

#[test]
fn msub_test_2() {
    let result = max_subarray::Solution::max_sub_array(vec![1]);
    assert_eq!(result, 1);
}

#[test]
fn msub_test_3() {
    let result = max_subarray::Solution::max_sub_array(vec![5, 4, -1, 7, 8]);
    assert_eq!(result, 23);
}

#[test]
fn brute_force_agrees() {
    assert_eq!(
        6,
        max_subarray::Solution::brute_force_max_sub_array(vec![-2, 1, -3, 4, -1, 2, 1, -5, 4])
    );
    assert_eq!(i32::MIN, max_subarray::Solution::brute_force_max_sub_array(vec![]));
}

#[test]
fn trapping_test_1() {
    assert_eq!(
        trapping_rain_water::Solution::trap(vec![0, 1, 0, 2, 1, 0, 1, 3, 2, 1, 2, 1]),
        6
    );
    assert_eq!(
        trapping_rain_water::Solution::trap_no_extra_space(vec![0, 1, 0, 2, 1, 0, 1, 3, 2, 1, 2, 1]),
        6
    );
    assert_eq!(trapping_rain_water::Solution::trap_no_extra_space(vec![0]), 0);
}

#[test]
fn sweep_test_1() {
    let ranges = vec![vec![1, 2], vec![3, 4], vec![5, 6]];
    let result = integers_covered::Solution::is_covered(ranges, 2, 5);
    assert!(result);
}

#[test]
fn sweep_test_2() {
    let ranges = vec![vec![1, 10], vec![10, 20]];
    let result = integers_covered::Solution::is_covered(ranges, 21, 21);
    assert!(!result);
}
