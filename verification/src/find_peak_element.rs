use vstd::prelude::*;

verus! {

/// Index `p` is a peak: strictly greater than both neighbours, with the
/// positions beyond the ends counting as smaller than everything.
pub open spec fn is_peak(s: Seq<i32>, p: int) -> bool {
    &&& 0 <= p < s.len()
    &&& (p == 0 || s[p - 1] < s[p])
    &&& (p == s.len() - 1 || s[p + 1] < s[p])
}

pub struct Solution;

impl Solution {
    /// Binary search for a peak. Whatever index comes back non-negative is
    /// a true peak; `-1` can only come back when some neighbours are equal.
    pub fn find_peak_element(nums: Vec<i32>) -> (r: i32)
        requires
            1 <= nums@.len(),
            nums@.len() <= 0x7fff_ffff,
        ensures
            r >= 0 ==> is_peak(nums@, r as int),
    {
        let length = nums.len();
        if length == 1 {
            return 0;
        }
        let mut low: usize = 0;
        let mut high: usize = length - 1;
        while low <= high
            invariant
                nums@.len() == length,
                2 <= length <= 0x7fff_ffff,
                low <= length,
                high <= length - 1,
            decreases high + 1 - low,
        {
            let middle = low + (high - low) / 2;
            let p_middle = if middle == 0 {
                i32::MIN
            } else {
                nums[middle - 1]
            };
            let n_middle = if middle == length - 1 {
                i32::MIN
            } else {
                nums[middle + 1]
            };
            if nums[middle] > p_middle && nums[middle] > n_middle {
                proof {
                    if middle > 0 {
                        assert(nums@[middle as int - 1] < nums@[middle as int] || nums@[middle
                            as int] > i32::MIN);
                    }
                }
                return middle as i32;
            } else if nums[middle] > n_middle {
                if middle == 0 {
                    return -1;
                }
                high = middle - 1;
            } else {
                low = middle + 1;
            }
        }
        -1
    }
}

} // verus!
