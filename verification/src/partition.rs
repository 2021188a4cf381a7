use vstd::prelude::*;

verus! {

pub open spec fn nums_sum(s: Seq<i32>) -> int
    decreases s.len(),
{
    if s.len() == 0 {
        0
    } else {
        nums_sum(s.drop_last()) + s.last()
    }
}

/// Can some subset of the first `i` numbers sum to exactly `j`?
pub open spec fn can_sum(s: Seq<i32>, i: int, j: int) -> bool
    decreases i,
{
    if i <= 0 {
        j == 0
    } else {
        can_sum(s, i - 1, j) || (s[i - 1] <= j && can_sum(s, i - 1, j - s[i - 1]))
    }
}

pub struct Solution;

impl Solution {
    /// Can the numbers be split into two halves of equal sum? Decided by
    /// the subset-sum table over half the total, keeping only the current
    /// and previous row; an odd total fails at once. All numbers must be
    /// non-negative.
    pub fn can_partition_2_rows(nums: Vec<i32>) -> (r: bool)
        requires
            nums@.len() <= 0xffff,
            forall|i: int| 0 <= i < nums@.len() ==> 0 <= #[trigger] nums@[i],
            nums_sum(nums@) <= 0xffff_ff,
        ensures
            r == (nums_sum(nums@) % 2 == 0 && can_sum(nums@, nums@.len() as int, nums_sum(nums@)
                / 2)),
    {
        let n = nums.len();
        let mut overall_sum: i64 = 0;
        let mut t: usize = 0;
        while t < n
            invariant
                t <= n,
                n == nums@.len(),
                n <= 0xffff,
                forall|i: int| 0 <= i < nums@.len() ==> 0 <= #[trigger] nums@[i],
                nums_sum(nums@) <= 0xffff_ff,
                overall_sum == nums_sum(nums@.subrange(0, t as int)),
                0 <= overall_sum <= (t as int) * 0x8000_0000,
            decreases n - t,
        {
            proof {
                assert(nums@.subrange(0, t as int + 1).drop_last() =~= nums@.subrange(0, t as int));
            }
            overall_sum = overall_sum + (nums[t] as i64);
            t = t + 1;
        }
        proof {
            assert(nums@.subrange(0, n as int) =~= nums@);
            lemma_sum_prefix_bound(nums@, n as int);
        }
        if overall_sum % 2 != 0 {
            return false;
        }
        let half = (overall_sum / 2) as usize;
        let cols = half + 1;
        let rows = n + 1;
        // one row per prefix of the numbers
        let mut prev: Vec<bool> = filled_bool(cols);
        let mut curr: Vec<bool> = filled_bool(cols);
        prev.set(0, true);
        proof {
            assert(forall|j: int| 0 <= j < cols ==> #[trigger] prev@[j] == can_sum(nums@, 0, j));
        }
        let mut i: usize = 1;
        while i < rows
            invariant
                1 <= i <= rows,
                rows == n + 1,
                n == nums@.len(),
                n <= 0xffff,
                cols == half + 1,
                cols <= 0x80_0000,
                forall|q: int| 0 <= q < nums@.len() ==> 0 <= #[trigger] nums@[q],
                prev@.len() == cols,
                curr@.len() == cols,
                forall|j: int|
                    0 <= j < cols ==> #[trigger] prev@[j] == can_sum(nums@, i as int - 1, j),
            decreases rows - i,
        {
            let num_i = nums[i - 1];
            let mut j: usize = 0;
            while j < cols
                invariant
                    j <= cols,
                    1 <= i <= n,
                    n == nums@.len(),
                    cols <= 0x80_0000,
                    num_i == nums@[i as int - 1],
                    0 <= num_i,
                    forall|q: int| 0 <= q < nums@.len() ==> 0 <= #[trigger] nums@[q],
                    prev@.len() == cols,
                    curr@.len() == cols,
                    forall|q: int|
                        0 <= q < cols ==> #[trigger] prev@[q] == can_sum(nums@, i as int - 1, q),
                    forall|q: int|
                        0 <= q < j ==> #[trigger] curr@[q] == can_sum(nums@, i as int, q),
                decreases cols - j,
            {
                let take = if num_i >= 0 && (num_i as usize) <= j {
                    prev[j - (num_i as usize)]
                } else {
                    false
                };
                curr.set(j, prev[j] || take);
                j = j + 1;
            }
            std::mem::swap(&mut prev, &mut curr);
            i = i + 1;
        }
        prev[cols - 1]
    }

    /// The same decision, keeping the whole table: one row per prefix of
    /// the numbers, where row `i` column `j` says whether some subset of
    /// the first `i` numbers sums to `j`.
    pub fn can_partition(nums: Vec<i32>) -> (r: bool)
        requires
            nums@.len() <= 0xffff,
            forall|i: int| 0 <= i < nums@.len() ==> 0 <= #[trigger] nums@[i],
            nums_sum(nums@) <= 0xffff_ff,
        ensures
            r == (nums_sum(nums@) % 2 == 0 && can_sum(nums@, nums@.len() as int, nums_sum(nums@)
                / 2)),
    {
        let n = nums.len();
        let mut overall_sum: i64 = 0;
        let mut t: usize = 0;
        while t < n
            invariant
                t <= n,
                n == nums@.len(),
                n <= 0xffff,
                forall|i: int| 0 <= i < nums@.len() ==> 0 <= #[trigger] nums@[i],
                nums_sum(nums@) <= 0xffff_ff,
                overall_sum == nums_sum(nums@.subrange(0, t as int)),
                0 <= overall_sum <= (t as int) * 0x8000_0000,
            decreases n - t,
        {
            proof {
                assert(nums@.subrange(0, t as int + 1).drop_last() =~= nums@.subrange(0, t as int));
            }
            overall_sum = overall_sum + (nums[t] as i64);
            t = t + 1;
        }
        proof {
            assert(nums@.subrange(0, n as int) =~= nums@);
            lemma_sum_prefix_bound(nums@, n as int);
        }
        if overall_sum % 2 != 0 {
            return false;
        }
        let half = (overall_sum / 2) as usize;
        let cols = half + 1;
        let rows = n + 1;
        let mut mat: Vec<Vec<bool>> = Vec::new();
        let mut first = filled_bool(cols);
        first.set(0, true);
        mat.push(first);
        let mut i: usize = 1;
        while i < rows
            invariant
                1 <= i <= rows,
                rows == n + 1,
                n == nums@.len(),
                n <= 0xffff,
                cols <= 0x80_0000,
                forall|q: int| 0 <= q < nums@.len() ==> 0 <= #[trigger] nums@[q],
                mat@.len() == i,
                forall|rr: int| 0 <= rr < i ==> (#[trigger] mat@[rr])@.len() == cols,
                forall|rr: int, j: int|
                    0 <= rr < i && 0 <= j < cols ==> #[trigger] mat@[rr]@[j] == can_sum(
                        nums@,
                        rr,
                        j,
                    ),
            decreases rows - i,
        {
            let num_i = nums[i - 1];
            let mut row: Vec<bool> = Vec::new();
            let mut j: usize = 0;
            while j < cols
                invariant
                    j <= cols,
                    1 <= i <= n,
                    n == nums@.len(),
                    cols <= 0x80_0000,
                    num_i == nums@[i as int - 1],
                    0 <= num_i,
                    mat@.len() == i,
                    forall|rr: int| 0 <= rr < i ==> (#[trigger] mat@[rr])@.len() == cols,
                    forall|rr: int, q: int|
                        0 <= rr < i && 0 <= q < cols ==> #[trigger] mat@[rr]@[q] == can_sum(
                            nums@,
                            rr,
                            q,
                        ),
                    row@.len() == j,
                    forall|q: int| 0 <= q < j ==> #[trigger] row@[q] == can_sum(nums@, i as int, q),
                decreases cols - j,
            {
                let take = if (num_i as usize) <= j {
                    mat[i - 1][j - (num_i as usize)]
                } else {
                    false
                };
                row.push(mat[i - 1][j] || take);
                j = j + 1;
            }
            mat.push(row);
            i = i + 1;
        }
        mat[rows - 1][cols - 1]
    }
}

proof fn lemma_sum_prefix_bound(s: Seq<i32>, i: int)
    requires
        0 <= i <= s.len(),
        forall|k: int| 0 <= k < s.len() ==> 0 <= #[trigger] s[k],
    ensures
        0 <= nums_sum(s.subrange(0, i)) <= nums_sum(s),
    decreases s.len() - i,
{
    lemma_sum_nonneg(s.subrange(0, i));
    if i < s.len() {
        lemma_sum_prefix_bound(s, i + 1);
        assert(s.subrange(0, i + 1).drop_last() =~= s.subrange(0, i));
    } else {
        assert(s.subrange(0, i) =~= s);
    }
}

proof fn lemma_sum_nonneg(s: Seq<i32>)
    requires
        forall|k: int| 0 <= k < s.len() ==> 0 <= #[trigger] s[k],
    ensures
        nums_sum(s) >= 0,
    decreases s.len(),
{
    if s.len() > 0 {
        assert(forall|k: int| 0 <= k < s.len() - 1 ==> #[trigger] s.drop_last()[k] == s[k]);
        lemma_sum_nonneg(s.drop_last());
    }
}

fn filled_bool(n: usize) -> (v: Vec<bool>)
    ensures
        v@.len() == n,
        forall|k: int| 0 <= k < n ==> !(#[trigger] v@[k]),
{
    let mut v: Vec<bool> = Vec::new();
    let mut i: usize = 0;
    while i < n
        invariant
            i <= n,
            v@.len() == i,
            forall|k: int| 0 <= k < i ==> !(#[trigger] v@[k]),
        decreases n - i,
    {
        v.push(false);
        i = i + 1;
    }
    v
}

} // verus!
