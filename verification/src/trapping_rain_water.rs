use vstd::prelude::*;

verus! {

pub open spec fn max2i(a: int, b: int) -> int {
    if a >= b {
        a
    } else {
        b
    }
}

/// Largest height among `s[0..=i]`.
pub open spec fn prefix_max(s: Seq<i32>, i: int) -> int
    decreases i + 1,
{
    if i <= 0 {
        s[0] as int
    } else {
        max2i(prefix_max(s, i - 1), s[i] as int)
    }
}

/// Largest height among `s[i..]`.
pub open spec fn suffix_max(s: Seq<i32>, i: int) -> int
    decreases s.len() - i,
{
    if i >= s.len() - 1 {
        s[s.len() - 1] as int
    } else {
        max2i(suffix_max(s, i + 1), s[i] as int)
    }
}

/// Water standing above column `i`: the span between the best wall on each
/// side (columns outside `i` itself), clipped below at zero.
pub open spec fn water_at(s: Seq<i32>, i: int) -> int {
    let left = prefix_max(s, i - 1);
    let right = suffix_max(s, i + 1);
    let lim = if left <= right {
        left
    } else {
        right
    };
    if lim - s[i] >= 0 {
        lim - s[i]
    } else {
        0
    }
}

/// Water standing above columns `1..=i`.
pub open spec fn water_sum(s: Seq<i32>, i: int) -> int
    decreases i,
{
    if i <= 0 {
        0
    } else {
        water_sum(s, i - 1) + water_at(s, i)
    }
}

proof fn lemma_water_bounds(s: Seq<i32>, i: int)
    requires
        0 <= i < s.len(),
        forall|k: int| 0 <= k < s.len() ==> 0 <= #[trigger] s[k],
    ensures
        0 <= water_sum(s, i) <= i * 0x7fff_ffff,
        0 <= prefix_max(s, i) <= 0x7fff_ffff,
        0 <= suffix_max(s, i) <= 0x7fff_ffff,
    decreases s.len() + i,
{
    if i > 0 {
        lemma_water_bounds(s, i - 1);
    }
    if i < s.len() - 1 {
        lemma_suffix_bounds(s, i + 1);
    }
}

proof fn lemma_suffix_bounds(s: Seq<i32>, i: int)
    requires
        0 <= i < s.len(),
        forall|k: int| 0 <= k < s.len() ==> 0 <= #[trigger] s[k],
    ensures
        0 <= suffix_max(s, i) <= 0x7fff_ffff,
    decreases s.len() - i,
{
    if i < s.len() - 1 {
        lemma_suffix_bounds(s, i + 1);
    }
}

pub struct Solution;

impl Solution {
    /// Total trapped rain water by the per-column formula, with the best
    /// wall heights on each side precomputed. Heights must be non-negative.
    pub fn trap(heights: Vec<i32>) -> (r: i32)
        requires
            heights@.len() <= 0xffff,
            forall|k: int| 0 <= k < heights@.len() ==> 0 <= #[trigger] heights@[k],
            heights@.len() >= 3 ==> water_sum(heights@, heights@.len() - 2) <= i32::MAX,
        ensures
            heights@.len() < 3 ==> r == 0,
            heights@.len() >= 3 ==> r as int == water_sum(heights@, heights@.len() - 2),
    {
        let n = heights.len();
        if n < 3 {
            return 0;
        }
        let mut left_max_prefix: Vec<i32> = Vec::new();
        let mut i: usize = 0;
        while i < n
            invariant
                i <= n,
                n == heights@.len(),
                3 <= n <= 0xffff,
                forall|k: int| 0 <= k < heights@.len() ==> 0 <= #[trigger] heights@[k],
                left_max_prefix@.len() == i,
                forall|k: int|
                    0 <= k < i ==> #[trigger] left_max_prefix@[k] as int == prefix_max(heights@, k),
            decreases n - i,
        {
            let h = heights[i];
            let prev: i32 = if i == 0 {
                h
            } else {
                let p = left_max_prefix[i - 1];
                if p >= h {
                    p
                } else {
                    h
                }
            };
            proof {
                lemma_water_bounds(heights@, i as int);
            }
            left_max_prefix.push(prev);
            i = i + 1;
        }
        let mut right_max_prefix: Vec<i32> = filled(n);
        let mut j: usize = n;
        while j > 0
            invariant
                j <= n,
                n == heights@.len(),
                3 <= n <= 0xffff,
                forall|k: int| 0 <= k < heights@.len() ==> 0 <= #[trigger] heights@[k],
                right_max_prefix@.len() == n,
                forall|k: int|
                    j <= k < n ==> #[trigger] right_max_prefix@[k] as int == suffix_max(
                        heights@,
                        k,
                    ),
            decreases j,
        {
            j = j - 1;
            let h = heights[j];
            let nxt: i32 = if j == n - 1 {
                h
            } else {
                let p = right_max_prefix[j + 1];
                if p >= h {
                    p
                } else {
                    h
                }
            };
            proof {
                lemma_suffix_bounds(heights@, j as int);
            }
            right_max_prefix.set(j, nxt);
        }
        // water stands only over the interior columns
        let mut total: i64 = 0;
        let mut c: usize = 1;
        while c < n - 1
            invariant
                1 <= c <= n - 1,
                n == heights@.len(),
                3 <= n <= 0xffff,
                forall|k: int| 0 <= k < heights@.len() ==> 0 <= #[trigger] heights@[k],
                left_max_prefix@.len() == n,
                right_max_prefix@.len() == n,
                forall|k: int|
                    0 <= k < n ==> #[trigger] left_max_prefix@[k] as int == prefix_max(heights@, k),
                forall|k: int|
                    0 <= k < n ==> #[trigger] right_max_prefix@[k] as int == suffix_max(
                        heights@,
                        k,
                    ),
                total == water_sum(heights@, c as int - 1),
                0 <= total <= (c as int) * 0x7fff_ffff,
            decreases n - 1 - c,
        {
            let left = left_max_prefix[c - 1];
            let right = right_max_prefix[c + 1];
            let lim = if left <= right {
                left
            } else {
                right
            };
            let gain = lim - heights[c];
            proof {
                lemma_water_bounds(heights@, c as int);
                lemma_suffix_bounds(heights@, c as int + 1);
            }
            if gain > 0 {
                total = total + (gain as i64);
            }
            c = c + 1;
        }
        proof {
            assert(water_sum(heights@, n as int - 2) == total);
        }
        total as i32
    }

    /// Total trapped rain water with two walking pointers and no extra
    /// arrays; the result is non-negative. Heights must be non-negative
    /// and the row non-empty.
    pub fn trap_no_extra_space(height: Vec<i32>) -> (r: i32)
        requires
            1 <= height@.len(),
            height@.len() <= 0xffff,
            forall|k: int| 0 <= k < height@.len() ==> 0 <= #[trigger] height@[k],
        ensures
            r >= 0,
    {
        let mut l: usize = 0;
        let mut r_ptr: usize = height.len() - 1;
        let mut left_max = height[l];
        let mut right_max = height[r_ptr];
        let mut acc: i64 = 0;
        while r_ptr != 0 && r_ptr >= l
            invariant
                l <= height@.len(),
                r_ptr < height@.len(),
                forall|k: int| 0 <= k < height@.len() ==> 0 <= #[trigger] height@[k],
                0 <= left_max <= 0x7fff_ffff,
                0 <= right_max <= 0x7fff_ffff,
                0 <= acc,
                acc <= (l + height@.len() - 1 - r_ptr) * 0x8000_0000,
                height@.len() <= 0xffff,
            decreases r_ptr - l + height@.len(),
        {
            if right_max > left_max {
                let gain = left_max - height[l];
                if gain > 0 {
                    acc = acc + (gain as i64);
                }
                if height[l] > left_max {
                    left_max = height[l];
                }
                l = l + 1;
            } else {
                let gain = right_max - height[r_ptr];
                if gain > 0 {
                    acc = acc + (gain as i64);
                }
                if height[r_ptr] > right_max {
                    right_max = height[r_ptr];
                }
                r_ptr = r_ptr - 1;
            }
        }
        if acc > (i32::MAX as i64) {
            i32::MAX
        } else {
            acc as i32
        }
    }
}

fn filled(n: usize) -> (v: Vec<i32>)
    ensures
        v@.len() == n,
{
    let mut v: Vec<i32> = Vec::new();
    let mut i: usize = 0;
    while i < n
        invariant
            i <= n,
            v@.len() == i,
        decreases n - i,
    {
        v.push(0);
        i = i + 1;
    }
    v
}

} // verus!
