use vstd::prelude::*;
use std::collections::HashMap;
use crate::integer_segment_tree::abs_of;
use vstd::arithmetic::div_mod::lemma_add_mod_noop;
use vstd::arithmetic::div_mod::lemma_mod_twice;
use vstd::arithmetic::div_mod::lemma_mod_equivalence;
use vstd::arithmetic::div_mod::lemma_mod_bound;

verus! {

/// Sum of the first `t` elements.
pub open spec fn prefix_total(s: Seq<i32>, t: int) -> int
    decreases t,
{
    if t <= 0 {
        0
    } else {
        prefix_total(s, t - 1) + s[t - 1]
    }
}

/// Remainder of the first `t` elements' sum, folded step by step as the
/// scan computes it.
pub open spec fn rem_at(s: Seq<i32>, t: int, kk: int) -> int
    decreases t,
{
    if t <= 0 {
        0
    } else {
        (rem_at(s, t - 1, kk) + s[t - 1]) % kk
    }
}

/// The folded remainder is the remainder of the prefix sum.
proof fn lemma_rem_is_mod(s: Seq<i32>, t: int, kk: int)
    requires
        kk > 0,
        t >= 0,
    ensures
        rem_at(s, t, kk) == prefix_total(s, t) % kk,
        0 <= rem_at(s, t, kk) < kk,
    decreases t,
{
    if t == 0 {
        assert(0int % kk == 0) by {
            lemma_mod_bound(0, kk);
            lemma_mod_equivalence(0, 0, kk);
        }
    } else {
        lemma_rem_is_mod(s, t - 1, kk);
        let p = prefix_total(s, t - 1);
        let x = s[t - 1] as int;
        lemma_add_mod_noop(p, x, kk);
        lemma_mod_twice(p, kk);
        lemma_mod_twice(x, kk);
        lemma_add_mod_noop(p % kk, x, kk);
        assert((p % kk + x) % kk == (p + x) % kk) by {
            assert((p % kk) % kk == p % kk);
            assert(((p % kk) % kk + x % kk) % kk == (p % kk + x) % kk);
            assert((p % kk + x % kk) % kk == (p + x) % kk);
        }
        lemma_mod_bound(p + x, kk);
    }
}

/// Two prefixes share a folded remainder exactly when the run between them
/// sums to a multiple of the divisor.
proof fn lemma_rem_pair(s: Seq<i32>, a: int, b: int, kk: int)
    requires
        kk > 0,
        0 <= a,
        0 <= b,
    ensures
        (rem_at(s, a, kk) == rem_at(s, b, kk)) == ((prefix_total(s, b) - prefix_total(s, a)) % kk
            == 0),
{
    lemma_rem_is_mod(s, a, kk);
    lemma_rem_is_mod(s, b, kk);
    lemma_mod_equivalence(prefix_total(s, b), prefix_total(s, a), kk);
}

pub struct Solution;

impl Solution {
    /// Is there a contiguous run of at least two elements whose sum is a
    /// multiple of `k`? Decided by watching for a repeated prefix-sum
    /// remainder at distance at least two, remembering each remainder's
    /// first position. Elements must be non-negative (with mixed signs the
    /// machine remainders of one residue class differ and the watch can
    /// miss a pair), and `k` must not be zero.
    pub fn check_subarray_sum(nums: Vec<i32>, k: i32) -> (r: bool)
        requires
            k != 0,
            nums@.len() <= 0x7fff_ffff,
            forall|t: int| 0 <= t < nums@.len() ==> 0 <= #[trigger] nums@[t],
        ensures
            r == exists|a: int, b: int|
                0 <= a && a + 2 <= b <= nums@.len() && #[trigger] (prefix_total(nums@, b)
                    - prefix_total(nums@, a)) % abs_of(k as int) == 0,
    {
        proof {
            broadcast use vstd::std_specs::hash::axiom_i32_obeys_hash_table_key_model;
            broadcast use vstd::std_specs::hash::axiom_random_state_builds_valid_hashers;

        }
        let ghost kk: int = abs_of(k as int);
        let kk64: i64 = if (k as i64) >= 0 {
            k as i64
        } else {
            -(k as i64)
        };
        let mut hash_map: HashMap<i32, i32> = HashMap::new();
        let mut remainder: i32 = 0;
        let mut idx: usize = 0;
        let n = nums.len();
        while idx < n
            invariant
                idx <= n,
                n == nums@.len(),
                n <= 0x7fff_ffff,
                k != 0,
                kk == abs_of(k as int),
                (kk64 as int) == kk,
                1 <= kk <= 0x8000_0000,
                forall|t: int| 0 <= t < nums@.len() ==> 0 <= #[trigger] nums@[t],
                remainder as int == rem_at(nums@, idx as int, kk),
                0 <= (remainder as int) < kk,
                vstd::std_specs::hash::obeys_key_model::<i32>(),
                vstd::std_specs::hash::builds_valid_hashers::<std::hash::RandomState>(),
                forall|t: int|
                    1 <= t <= idx ==> hash_map@.contains_key(
                        #[trigger] rem_at(nums@, t, kk) as i32,
                    ),
                forall|key: i32|
                    #[trigger] hash_map@.contains_key(key) ==> 0 <= hash_map@[key] < idx
                        && rem_at(nums@, hash_map@[key] + 1, kk) == key as int && (forall|tp: int|
                        1 <= tp <= hash_map@[key] ==> #[trigger] rem_at(nums@, tp, kk)
                            != key as int),
                forall|a: int, b: int|
                    0 <= a && a + 2 <= b <= idx ==> #[trigger] rem_at(nums@, a, kk)
                        != #[trigger] rem_at(nums@, b, kk),
            decreases n - idx,
        {
            let wide: i64 = (remainder as i64) + (nums[idx] as i64);
            let m: i64 = wide % kk64;
            proof {
                lemma_rem_is_mod(nums@, idx as int + 1, kk);
                lemma_rem_is_mod(nums@, idx as int, kk);
                assert(wide as int == rem_at(nums@, idx as int, kk) + nums@[idx as int]);
                assert(m as int == rem_at(nums@, idx as int + 1, kk)) by {
                    lemma_mod_bound(wide as int, kk);
                }
            }
            remainder = m as i32;
            let ghost t_new = idx as int + 1;
            if idx > 0 && remainder == 0 {
                proof {
                    assert(rem_at(nums@, 0, kk) == 0);
                    lemma_rem_pair(nums@, 0, t_new, kk);
                    assert(0 <= 0 && 0 + 2 <= t_new <= nums@.len() && (prefix_total(nums@, t_new)
                        - prefix_total(nums@, 0)) % abs_of(k as int) == 0);
                }
                return true;
            }
            match hash_map.get(&remainder) {
                Some(prev_idx) => {
                    let prev = *prev_idx;
                    if (idx as i64) - (prev as i64) > 1 {
                        proof {
                            let t0 = prev as int + 1;
                            assert(rem_at(nums@, t0, kk) == remainder as int);
                            lemma_rem_pair(nums@, t0, t_new, kk);
                            assert(0 <= t0 && t0 + 2 <= t_new <= nums@.len() && (prefix_total(
                                nums@,
                                t_new,
                            ) - prefix_total(nums@, t0)) % abs_of(k as int) == 0);
                        }
                        return true;
                    }
                    proof {
                        assert forall|a: int, b: int|
                            0 <= a && a + 2 <= b <= t_new implies #[trigger] rem_at(nums@, a, kk)
                            != #[trigger] rem_at(nums@, b, kk) by {
                            if b == t_new && rem_at(nums@, a, kk) == rem_at(nums@, b, kk) {
                                if a == 0 {
                                    assert(rem_at(nums@, 0, kk) == 0);
                                    assert(remainder == 0 && idx > 0);
                                } else {
                                    let t0 = hash_map@[remainder] as int + 1;
                                    assert(hash_map@.contains_key(rem_at(nums@, a, kk) as i32));
                                    assert(t0 <= a);
                                }
                            }
                        }
                    }
                },
                None => {
                    let ghost pre_map = hash_map@;
                    hash_map.insert(remainder, idx as i32);
                    proof {
                        assert forall|tp: int|
                            1 <= tp <= idx implies #[trigger] rem_at(nums@, tp, kk)
                            != remainder as int by {
                            if rem_at(nums@, tp, kk) == remainder as int {
                                assert(pre_map.contains_key(rem_at(nums@, tp, kk) as i32));
                            }
                        }
                        assert forall|a: int, b: int|
                            0 <= a && a + 2 <= b <= t_new implies #[trigger] rem_at(nums@, a, kk)
                            != #[trigger] rem_at(nums@, b, kk) by {
                            if b == t_new && rem_at(nums@, a, kk) == rem_at(nums@, b, kk) {
                                if a == 0 {
                                    assert(rem_at(nums@, 0, kk) == 0);
                                    assert(remainder == 0 && idx > 0);
                                } else {
                                    assert(rem_at(nums@, a, kk) != remainder as int);
                                }
                            }
                        }
                    }
                },
            }
            idx = idx + 1;
        }
        proof {
            assert forall|a: int, b: int|
                0 <= a && a + 2 <= b <= nums@.len() implies #[trigger] (prefix_total(nums@, b)
                - prefix_total(nums@, a)) % abs_of(k as int) != 0 by {
                lemma_rem_pair(nums@, a, b, kk);
            }
        }
        false
    }
}

} // verus!
