use vstd::prelude::*;

verus! {

pub open spec fn abs_int(x: int) -> int {
    if x >= 0 {
        x
    } else {
        -x
    }
}

/// Sum of the absolute steps between consecutive targets.
pub open spec fn step_sum(s: Seq<i32>) -> int
    decreases s.len(),
{
    if s.len() <= 1 {
        0
    } else {
        step_sum(s.drop_last()) + abs_int(s.last() - s[s.len() - 2])
    }
}

/// Minimum number of suffix increment/decrement operations turning the
/// all-zero array into `b`: `b[0]` sets the first position and every change
/// between neighbours costs its absolute difference.
pub fn min_steps(b: &[i32]) -> (r: u32)
    requires
        b@.len() <= 0x4000_0000,
        b@.len() >= 1 ==> 0 <= b@[0] + step_sum(b@) <= u32::MAX,
    ensures
        b@.len() == 0 ==> r == 0,
        b@.len() >= 1 ==> r as int == b@[0] + step_sum(b@),
{
    if b.is_empty() {
        return 0;
    }
    let n = b.len();
    let mut acc: i64 = b[0] as i64;
    let mut i: usize = 1;
    while i < n
        invariant
            1 <= i <= n,
            n == b@.len(),
            n <= 0x4000_0000,
            acc == b@[0] + step_sum(b@.subrange(0, i as int)),
            -0x8000_0000 <= acc <= 0x8000_0000 + (i as int) * 0x1_0000_0000,
        decreases n - i,
    {
        proof {
            assert(b@.subrange(0, i as int + 1).drop_last() =~= b@.subrange(0, i as int));
        }
        let d: i64 = (b[i] as i64) - (b[i - 1] as i64);
        let step: i64 = if d >= 0 {
            d
        } else {
            -d
        };
        acc = acc + step;
        i = i + 1;
    }
    proof {
        assert(b@.subrange(0, n as int) =~= b@);
    }
    acc as u32
}

} // verus!
