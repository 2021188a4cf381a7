use vstd::prelude::*;

verus! {

pub open spec fn sorted_u32(s: Seq<u32>) -> bool {
    forall|a: int, b: int| 0 <= a < b < s.len() ==> s[a] < s[b]
}

/// First position whose value is at least `num` in a strictly increasing
/// list, `len` when there is none.
pub fn lower_bound(dominant: &Vec<u32>, num: u32) -> (p: usize)
    requires
        sorted_u32(dominant@),
    ensures
        p <= dominant@.len(),
        forall|k: int| 0 <= k < p ==> dominant@[k] < num,
        p < dominant@.len() ==> dominant@[p as int] >= num,
{
    let mut low: usize = 0;
    let mut high: usize = dominant.len();
    while low < high
        invariant
            low <= high <= dominant@.len(),
            sorted_u32(dominant@),
            forall|k: int| 0 <= k < low ==> dominant@[k] < num,
            forall|k: int| high <= k < dominant@.len() ==> dominant@[k] >= num,
        decreases high - low,
    {
        let mid = low + (high - low) / 2;
        if dominant[mid] < num {
            low = mid + 1;
        } else {
            high = mid;
        }
    }
    low
}

pub struct Solution;

impl Solution {
    /// Patience scan for the longest strictly increasing subsequence: keep,
    /// for each length, the smallest tail seen; the kept list's length is
    /// the answer. The result never exceeds the input length, and a
    /// non-empty input yields at least one.
    pub fn length_of_lis(nums: &[u32]) -> (r: u32)
        requires
            nums@.len() <= 0xffff_ffff,
        ensures
            r <= nums@.len(),
            nums@.len() >= 1 ==> r >= 1,
    {
        let mut dominant: Vec<u32> = Vec::new();
        let n = nums.len();
        let mut i: usize = 0;
        while i < n
            invariant
                i <= n,
                n == nums@.len(),
                sorted_u32(dominant@),
                dominant@.len() <= i,
                i >= 1 ==> dominant@.len() >= 1,
            decreases n - i,
        {
            let num = nums[i];
            let p = lower_bound(&dominant, num);
            if p == dominant.len() {
                dominant.push(num);
            } else {
                dominant.set(p, num);
                proof {
                    assert forall|a: int, b: int|
                        0 <= a < b < dominant@.len() implies dominant@[a] < dominant@[b] by {}
                }
            }
            i = i + 1;
        }
        dominant.len() as u32
    }
}

} // verus!
