use vstd::prelude::*;

verus! {

pub open spec fn sum_of(s: Seq<int>) -> int
    decreases s.len(),
{
    if s.len() == 0 {
        0
    } else {
        sum_of(s.drop_last()) + s.last()
    }
}

pub open spec fn to_ints(s: Seq<i32>) -> Seq<int> {
    s.map_values(|x: i32| x as int)
}

/// The best sum of a subarray ending at the last element.
pub open spec fn best_suffix(s: Seq<int>) -> int
    recommends
        s.len() >= 1,
    decreases s.len(),
{
    if s.len() <= 1 {
        s[0]
    } else {
        let t = best_suffix(s.drop_last());
        s.last() + (if t > 0 {
            t
        } else {
            0
        })
    }
}

/// The best sum over all non-empty subarrays.
pub open spec fn best_subarray(s: Seq<int>) -> int
    recommends
        s.len() >= 1,
    decreases s.len(),
{
    if s.len() <= 1 {
        s[0]
    } else {
        let rest = best_subarray(s.drop_last());
        if rest >= best_suffix(s) {
            rest
        } else {
            best_suffix(s)
        }
    }
}

pub struct Solution;

impl Solution {
    /// Kadane's scan: the largest sum of a non-empty contiguous subarray,
    /// or `0` for an empty input.
    pub fn max_sub_array(nums: Vec<i32>) -> (r: i32)
        requires
            nums@.len() <= 0x4000_0000,
            nums@.len() >= 1 ==> i32::MIN <= best_subarray(to_ints(nums@)) <= i32::MAX,
        ensures
            nums@.len() == 0 ==> r == 0,
            nums@.len() >= 1 ==> r as int == best_subarray(to_ints(nums@)),
    {
        if nums.is_empty() {
            return 0;
        }
        let n = nums.len();
        let ghost s = to_ints(nums@);
        let mut max_sum: i64 = nums[0] as i64;
        let mut sub_sum: i64 = nums[0] as i64;
        let mut start_idx: usize = 1;
        while start_idx < n
            invariant
                1 <= start_idx <= n,
                n == nums@.len(),
                n <= 0x4000_0000,
                s == to_ints(nums@),
                sub_sum == best_suffix(s.subrange(0, start_idx as int)),
                max_sum == best_subarray(s.subrange(0, start_idx as int)),
                -((start_idx as int) * 0x8000_0000) <= sub_sum <= (start_idx as int) * 0x8000_0000,
                -((start_idx as int) * 0x8000_0000) <= max_sum <= (start_idx as int) * 0x8000_0000,
            decreases n - start_idx,
        {
            proof {
                assert(s.subrange(0, start_idx as int + 1).drop_last() =~= s.subrange(
                    0,
                    start_idx as int,
                ));
                assert(s.subrange(0, start_idx as int + 1).last() == nums@[start_idx as int] as int);
            }
            if sub_sum > 0 {
                sub_sum = sub_sum + (nums[start_idx] as i64);
            } else {
                sub_sum = nums[start_idx] as i64;
            }
            if sub_sum > max_sum {
                max_sum = sub_sum;
            }
            start_idx = start_idx + 1;
        }
        proof {
            assert(s.subrange(0, n as int) =~= s);
        }
        max_sum as i32
    }

    /// Every pair of endpoints tried directly: the result is the sum of
    /// some non-empty contiguous subarray and no subarray sums to more.
    /// An empty input gives `i32::MIN`.
    pub fn brute_force_max_sub_array(nums: Vec<i32>) -> (r: i32)
        requires
            nums@.len() <= 0x4000_0000,
            forall|a: int, b: int|
                0 <= a <= b < nums@.len() ==> i32::MIN <= #[trigger] sum_of(
                    to_ints(nums@).subrange(a, b + 1),
                ) <= i32::MAX,
        ensures
            nums@.len() == 0 ==> r == i32::MIN,
            nums@.len() >= 1 ==> exists|a: int, b: int|
                0 <= a <= b < nums@.len() && r as int == #[trigger] sum_of(
                    to_ints(nums@).subrange(a, b + 1),
                ),
            forall|a: int, b: int|
                0 <= a <= b < nums@.len() ==> #[trigger] sum_of(to_ints(nums@).subrange(a, b + 1))
                    <= r as int,
    {
        let n = nums.len();
        let ghost s = to_ints(nums@);
        let mut max_sum: i64 = i32::MIN as i64;
        let mut i: usize = 0;
        while i < n
            invariant
                i <= n,
                n == nums@.len(),
                n <= 0x4000_0000,
                s == to_ints(nums@),
                i == 0 ==> max_sum == i32::MIN,
                i >= 1 ==> exists|a: int, b: int|
                    0 <= a <= b < n && max_sum == #[trigger] sum_of(s.subrange(a, b + 1)),
                forall|a: int, b: int|
                    0 <= a <= b < n && a < i ==> #[trigger] sum_of(s.subrange(a, b + 1)) <= max_sum,
                forall|a: int, b: int|
                    0 <= a <= b < s.len() ==> i32::MIN <= #[trigger] sum_of(s.subrange(a, b + 1))
                        <= i32::MAX,
            decreases n - i,
        {
            let mut sum: i64 = 0;
            let mut j: usize = i;
            proof {
                assert(s.subrange(i as int, i as int) =~= Seq::<int>::empty());
            }
            while j < n
                invariant
                    i <= j <= n,
                    i < n,
                    n == nums@.len(),
                    n <= 0x4000_0000,
                    s == to_ints(nums@),
                    sum == sum_of(s.subrange(i as int, j as int)),
                    -((j as int) * 0x8000_0000) <= sum <= (j as int) * 0x8000_0000,
                    i == 0 && j == i ==> max_sum == i32::MIN,
                    !(i == 0 && j == i) ==> exists|a: int, b: int|
                        0 <= a <= b < n && max_sum == #[trigger] sum_of(s.subrange(a, b + 1)),
                    forall|a: int, b: int|
                        0 <= a <= b < n && (a < i || (a == i && b < j)) ==> #[trigger] sum_of(
                            s.subrange(a, b + 1),
                        ) <= max_sum,
                    forall|a: int, b: int|
                        0 <= a <= b < s.len() ==> i32::MIN <= #[trigger] sum_of(
                            s.subrange(a, b + 1),
                        ) <= i32::MAX,
                decreases n - j,
            {
                proof {
                    assert(s.subrange(i as int, j as int + 1).drop_last() =~= s.subrange(
                        i as int,
                        j as int,
                    ));
                    assert(s.subrange(i as int, j as int + 1).last() == nums@[j as int] as int);
                }
                sum = sum + (nums[j] as i64);
                if sum > max_sum {
                    max_sum = sum;
                }
                proof {
                    if max_sum == sum {
                        assert(max_sum == sum_of(s.subrange(i as int, j as int + 1)));
                        assert(exists|a: int, b: int|
                            0 <= a <= b < n && max_sum == #[trigger] sum_of(s.subrange(a, b + 1)));
                    }
                }
                j = j + 1;
            }
            i = i + 1;
        }
        max_sum as i32
    }
}

} // verus!
