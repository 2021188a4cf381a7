use segment_tree::integer_segment_tree::IntegerSegmentTree;
use segment_tree::integer_segment_tree::MergeOp;
use segment_tree::min_max::MaxSegmentTree;
use segment_tree::holiday::max_visitable_attractions;
use segment_tree::course_design::Topic;
use segment_tree::course_design::design_course;
use segment_tree::course_design::length_of_lis;
use segment_tree::find_peak_element;
use segment_tree::min_max::MinMaxArray;

// Build correctness: the full-range query merges the whole input and every
// single-element query returns that element.
#[test]
fn build_full_range_and_singletons() {
    let a = [3, 4, 5, 3, 8, 12, -4];
    let mut t = IntegerSegmentTree::build(&a, 0, MergeOp::Sum);
    let mut total = 0;
    for x in a {
        total += x;
    }
    assert_eq!(total, t.query(0, a.len() - 1));
    for (i, x) in a.iter().enumerate() {
        assert_eq!(*x, t.query(i, i));
    }
}

// Update/query consistency against a plain array mirror.
#[test]
fn oracle_mirror() {
    let mut mirror: Vec<i32> = vec![0; 10];
    let mut t = IntegerSegmentTree::build_empty(10, 0, MergeOp::Sum);
    let updates: [(usize, usize, i32); 4] = [(0, 5, 5), (2, 7, 3), (4, 4, 10), (1, 9, 2)];
    for (lo, hi, v) in updates {
        t.range_update(lo, hi, v);
        for k in lo..hi + 1 {
            mirror[k] += v;
        }
    }
    t.add(3, -4);
    mirror[3] += -4;
    for lo in 0..10 {
        for hi in lo..10 {
            let mut expect = 0;
            for k in lo..hi + 1 {
                expect += mirror[k];
            }
            assert_eq!(expect, t.query(lo, hi));
        }
    }
}

// Idempotent flush: asking the same query twice gives the same answer and
// leaves the same internal state behind.
#[test]
fn repeated_query_same_state() {
    let mut t = IntegerSegmentTree::build_empty(10, 0, MergeOp::Sum);
    t.range_update(0, 5, 5);
    let first = t.query(1, 3);
    let mut snapshot: Vec<i32> = Vec::new();
    for i in 0..19 {
        snapshot.push(t.get_index(i));
    }
    let second = t.query(1, 3);
    assert_eq!(first, second);
    for i in 0..19 {
        assert_eq!(snapshot[i], t.get_index(i));
    }

    let mut m = MaxSegmentTree::build(&[8, 2, 6, 21, 18, 15, 2, 31, 4, 16]);
    m.range_update(4, 9, 2);
    let a = m.query(5, 7);
    let mut vals: Vec<u32> = Vec::new();
    let mut pend: Vec<Option<u32>> = Vec::new();
    for i in 0..19 {
        vals.push(m.node_value(i));
        pend.push(m.pending_at(i));
    }
    let b = m.query(5, 7);
    assert_eq!(a, b);
    for i in 0..19 {
        assert_eq!(vals[i], m.node_value(i));
        assert_eq!(pend[i], m.pending_at(i));
    }
}

// Lazy propagation depth: after one range update, deep size-one queries
// inside the totally-overlapped region are already correct.
#[test]
fn deep_reads_after_lazy_update() {
    let mut t = IntegerSegmentTree::build(&[1, 2, 3, 4, 5, 6, 7, 8], 0, MergeOp::Sum);
    t.range_update(0, 7, 10);
    for i in 0..8 {
        assert_eq!((i as i32) + 1 + 10, t.query(i, i));
    }
}

// Neutral-element absorption for each merge operation.
#[test]
fn neutral_absorption() {
    for x in [-7, 0, 13, i32::MIN, i32::MAX] {
        assert_eq!(x, MergeOp::Sum.apply(x, 0));
        assert_eq!(x, MergeOp::Sum.apply(0, x));
        assert_eq!(x, MergeOp::Min.apply(x, i32::MAX));
        assert_eq!(x, MergeOp::Min.apply(i32::MAX, x));
        assert_eq!(x, MergeOp::Max.apply(x, i32::MIN));
        assert_eq!(x, MergeOp::Max.apply(i32::MIN, x));
    }
}

#[test]
fn holiday_planning_small() {
    // two cities, two days: spend both days in the better city
    let cities = [vec![3u32, 1], vec![2, 5]];
    assert_eq!(7, max_visitable_attractions(&cities));
    // one city, one day
    let single = [vec![4u32]];
    assert_eq!(4, max_visitable_attractions(&single));
    let none: [Vec<u32>; 0] = [];
    assert_eq!(0, max_visitable_attractions(&none));
}

#[test]
fn course_design_small() {
    assert_eq!(4, length_of_lis(&[10, 9, 2, 5, 3, 7, 101, 18]));
    let topics = [
        Topic::new(3, 1),
        Topic::new(1, 2),
        Topic::new(5, 2),
        Topic::new(7, 3),
    ];
    let picked = design_course(&topics);
    assert!(picked >= 1 && picked <= 4);
}

#[test]
fn find_peak_small() {
    let r = find_peak_element::Solution::find_peak_element(vec![1, 2, 3, 1]);
    assert_eq!(r, 2);
    let r2 = find_peak_element::Solution::find_peak_element(vec![1]);
    assert_eq!(r2, 0);
}

#[test]
fn minmax_wrapper_scenario() {
    let mut arr = MinMaxArray::build(&[5, 1, 4, 3, 2]);
    arr.update(0, 1, 2);
    assert_eq!(4, arr.max(1, 3));
    assert_eq!(2, arr.max(0, 1));
    assert_eq!(0, arr.max(3, 1));
}
