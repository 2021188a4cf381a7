use segment_tree::graph::Dag;
use segment_tree::graph::minimum_paths_cost_from_to;

#[test]
fn test_two_paths() {
    let dag = Dag::from_edges_weighted(4, &[
        (0, 1, 10),
        (1, 3, 10),
        (0, 2, 1),
        (2, 3, 1),
    ]);

    let (path, cost) = minimum_paths_cost_from_to(&dag, 0, 3).unwrap();
    assert_eq!(path, vec![0, 2, 3]);
    assert_eq!(cost, 2);
}
