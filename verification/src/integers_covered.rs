use vstd::prelude::*;
use crate::is_there::psum;
use crate::is_there::lemma_psum_update;

verus! {

/// How many of the ranges (rows of `[lo, hi]`) cover the point `p`.
pub open spec fn covered_count(rs: Seq<Vec<i32>>, p: int) -> int
    decreases rs.len(),
{
    if rs.len() == 0 {
        0
    } else {
        covered_count(rs.drop_last(), p) + (if rs.last()@[0] <= p <= rs.last()@[1] {
            1int
        } else {
            0int
        })
    }
}

proof fn lemma_covered_bounds(rs: Seq<Vec<i32>>, p: int)
    ensures
        0 <= covered_count(rs, p) <= rs.len(),
    decreases rs.len(),
{
    if rs.len() > 0 {
        lemma_covered_bounds(rs.drop_last(), p);
    }
}

pub struct Solution;

impl Solution {
    /// Is every integer of `[left, right]` covered by at least one of the
    /// ranges? Decided by sweeping the ranges into a difference array over
    /// the value universe `[1, 50]` and checking its prefix sums. An
    /// inverted query interval holds trivially.
    pub fn is_covered(ranges: Vec<Vec<i32>>, left: i32, right: i32) -> (r: bool)
        requires
            ranges@.len() <= 50,
            forall|t: int|
                0 <= t < ranges@.len() ==> (#[trigger] ranges@[t])@.len() >= 2 && 1
                    <= ranges@[t]@[0] <= ranges@[t]@[1] <= 50,
            0 <= left <= 51,
            0 <= right <= 50,
        ensures
            r == forall|p: int| left <= p <= right ==> covered_count(ranges@, p) >= 1,
    {
        let n = ranges.len();
        let mut freq: Vec<i32> = Vec::new();
        let mut z: usize = 0;
        while z < 52
            invariant
                z <= 52,
                freq@.len() == z,
                forall|q: int| 0 <= q < z ==> #[trigger] freq@[q] == 0i32,
            decreases 52 - z,
        {
            freq.push(0);
            z = z + 1;
        }
        proof {
            assert forall|p: int| p <= 51 implies #[trigger] psum(freq@, p) == covered_count(
                ranges@.subrange(0, 0),
                p,
            ) by {
                if p >= 0 {
                    lemma_psum_zero_here(freq@, p);
                }
            }
        }
        let mut t: usize = 0;
        while t < n
            invariant
                t <= n,
                n == ranges@.len(),
                n <= 50,
                freq@.len() == 52,
                forall|q: int|
                    0 <= q < ranges@.len() ==> (#[trigger] ranges@[q])@.len() >= 2 && 1
                        <= ranges@[q]@[0] <= ranges@[q]@[1] <= 50,
                forall|q: int| 0 <= q < 52 ==> -(t as int) <= #[trigger] freq@[q] <= t as int,
                forall|p: int|
                    p <= 51 ==> #[trigger] psum(freq@, p) == covered_count(
                        ranges@.subrange(0, t as int),
                        p,
                    ),
            decreases n - t,
        {
            let lo = ranges[t][0];
            let hi = ranges[t][1];
            let ghost d0 = freq@;
            let flo = freq[lo as usize];
            freq.set(lo as usize, flo + 1);
            let ghost d1 = freq@;
            let fhi = freq[(hi + 1) as usize];
            freq.set((hi + 1) as usize, fhi - 1);
            proof {
                let taken = ranges@.subrange(0, t as int);
                let taken1 = ranges@.subrange(0, t as int + 1);
                assert(taken1.drop_last() =~= taken);
                assert(taken1.last() == ranges@[t as int]);
                assert forall|p: int| p <= 51 implies #[trigger] psum(freq@, p) == covered_count(
                    taken1,
                    p,
                ) by {
                    assert(psum(d0, p) == covered_count(taken, p));
                    if p >= 0 {
                        lemma_psum_update(d0, lo as int, (flo + 1) as i32, p);
                        lemma_psum_update(d1, hi as int + 1, (fhi - 1) as i32, p);
                    } else {
                        assert(psum(freq@, p) == 0);
                    }
                }
            }
            t = t + 1;
        }
        proof {
            assert(ranges@.subrange(0, n as int) =~= ranges@);
            assert(forall|q: int| 0 <= q < 52 ==> -(n as int) <= #[trigger] freq@[q] <= n as int);
        }
        // prefix sums over the universe turn the sweep into counts
        let mut i: i32 = left;
        while i < right + 1
            invariant
                0 <= left <= 51,
                right <= 50,
                left <= i <= right + 1 || (i == left && left > right),
                freq@.len() == 52,
                n == ranges@.len(),
                n <= 50,
                forall|qq: int| 0 <= qq < 52 ==> -(n as int) <= #[trigger] freq@[qq] <= n as int,
                forall|p: int| p <= 51 ==> #[trigger] psum(freq@, p) == covered_count(ranges@, p),
                forall|p: int| left <= p < i ==> covered_count(ranges@, p) >= 1,
            decreases right + 1 - i,
        {
            // count of ranges covering i, as the prefix sum up to i
            let mut acc2: i32 = 0;
            let mut q: usize = 0;
            while q < (i as usize) + 1
                invariant
                    q <= i + 1,
                    0 <= i <= 50,
                    freq@.len() == 52,
                    n == ranges@.len(),
                    n <= 50,
                    forall|qq: int| 0 <= qq < 52 ==> -(n as int) <= #[trigger] freq@[qq] <= n as int,
                    acc2 as int == psum(freq@, q as int - 1),
                    -(q as int) * 50 <= acc2 as int <= (q as int) * 50,
                decreases i + 1 - q,
            {
                acc2 = acc2 + freq[q];
                q = q + 1;
            }
            proof {
                lemma_covered_bounds(ranges@, i as int);
            }
            if acc2 == 0 {
                return false;
            }
            i = i + 1;
        }
        true
    }
}

proof fn lemma_psum_zero_here(d: Seq<i32>, p: int)
    requires
        forall|q: int| 0 <= q < d.len() ==> #[trigger] d[q] == 0i32,
        p < d.len(),
    ensures
        psum(d, p) == 0,
    decreases p + 1,
{
    if p >= 0 {
        lemma_psum_zero_here(d, p - 1);
    }
}

} // verus!
