use vstd::prelude::*;
use crate::graph::Dag;
use crate::graph::maximum_path_beneficial_from_to;

verus! {

/// The best loot from houses `s` when no two adjacent houses may both be
/// robbed: either skip the last house, or rob it on top of the best loot
/// from everything before its neighbour.
pub open spec fn rob_spec(s: Seq<int>) -> int
    decreases s.len(),
{
    if s.len() == 0 {
        0
    } else {
        let skip = rob_spec(s.drop_last());
        let take = s.last() + (if s.len() >= 2 {
            rob_spec(s.drop_last().drop_last())
        } else {
            0
        });
        if skip >= take {
            skip
        } else {
            take
        }
    }
}

pub open spec fn ints_of(s: Seq<i32>) -> Seq<int> {
    s.map_values(|x: i32| x as int)
}

pub struct Solution;

impl Solution {
    /// Best non-adjacent loot, by the two-register scan.
    pub fn rob(nums: Vec<i32>) -> (r: i32)
        requires
            nums@.len() <= 0x4000_0000,
            i32::MIN <= rob_spec(ints_of(nums@)) <= i32::MAX,
        ensures
            r as int == rob_spec(ints_of(nums@)),
    {
        let ghost s = ints_of(nums@);
        let n = nums.len();
        let mut prev_1: i64 = 0;
        let mut prev_2: i64 = 0;
        let mut i: usize = 0;
        while i < n
            invariant
                i <= n,
                n == nums@.len(),
                n <= 0x4000_0000,
                s == ints_of(nums@),
                prev_1 == rob_spec(s.subrange(0, i as int)),
                i >= 1 ==> prev_2 == rob_spec(s.subrange(0, i as int - 1)),
                i == 0 ==> prev_2 == 0,
                -((i as int) * 0x8000_0000) <= prev_1 <= (i as int) * 0x8000_0000,
                -((i as int) * 0x8000_0000) <= prev_2 <= (i as int) * 0x8000_0000,
            decreases n - i,
        {
            proof {
                let t1 = s.subrange(0, i as int + 1);
                assert(t1.drop_last() =~= s.subrange(0, i as int));
                if i >= 1 {
                    assert(t1.drop_last().drop_last() =~= s.subrange(0, i as int - 1));
                }
                assert(t1.last() == nums@[i as int] as int);
            }
            let revenue = nums[i] as i64;
            let temp = if prev_1 >= revenue + prev_2 {
                prev_1
            } else {
                revenue + prev_2
            };
            prev_2 = prev_1;
            prev_1 = temp;
            i = i + 1;
        }
        proof {
            assert(s.subrange(0, n as int) =~= s);
        }
        prev_1 as i32
    }

    /// The same problem phrased as a most-beneficial path through a graph
    /// whose edges skip at least one house. The path search runs over `u32`
    /// weights, so negative loot values are a caller error.
    pub fn rob_with_dag(nums: Vec<i32>) -> (r: i32)
        requires
            1 <= nums@.len(),
            nums@.len() <= 0x4000_0000,
    {
        let n = nums.len();
        let num_nodes = n + 2;
        let mut dag = Dag::new(num_nodes);

        let mut i: usize = 0;
        while i < n
            invariant
                i <= n,
                n == nums@.len(),
                n + 2 == num_nodes,
                dag.wf(),
                dag.node_count() == num_nodes,
            decreases n - i,
        {
            let node_idx = i + 1;
            dag.add_edge(0, node_idx, nums[i] as u32);
            dag.add_edge(node_idx, n + 1, 0);
            if i + 2 < n {
                dag.add_edge(node_idx, node_idx + 2, nums[i + 2] as u32);
            }
            if i + 3 < n {
                dag.add_edge(node_idx, node_idx + 3, nums[i + 3] as u32);
            }
            i = i + 1;
        }

        match maximum_path_beneficial_from_to(&dag, 0, num_nodes - 1) {
            Some(p) => p.1 as i32,
            // every house is linked straight to the sink, so a missing path
            // cannot happen; fail soft with the no-loot answer
            None => 0,
        }
    }
}

} // verus!
