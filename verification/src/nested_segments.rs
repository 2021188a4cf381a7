use vstd::prelude::*;
use std::collections::HashMap;
use crate::integer_segment_tree::IntegerSegmentTree;
use crate::integer_segment_tree::MergeOp;
use crate::integer_segment_tree::mop;
use crate::integer_segment_tree::fold_vals;
use crate::integer_segment_tree::agg_fits;
use crate::integer_segment_tree::in_i32;

verus! {

/// A merge of values all within `[-c, c]` stays within `len * c`.
proof fn lemma_sum_bound(s: Seq<int>, c: int)
    requires
        s.len() >= 1,
        c >= 0,
        forall|i: int| 0 <= i < s.len() ==> -c <= #[trigger] s[i] <= c,
    ensures
        -(s.len() * c) <= fold_vals(MergeOp::Sum, s) <= s.len() * c,
    decreases s.len(),
{
    if s.len() > 1 {
        assert(forall|i: int| 0 <= i < s.len() - 1 ==> #[trigger] s.drop_last()[i] == s[i]);
        lemma_sum_bound(s.drop_last(), c);
        assert((s.len() - 1) * c + c == s.len() * c) by (nonlinear_arith);
    }
}

/// Bounded entries keep every subrange merge representable.
proof fn lemma_bounded_agg_fits(s: Seq<int>, c: int)
    requires
        c >= 0,
        c <= 0x8000,
        s.len() <= 0x8000,
        forall|i: int| 0 <= i < s.len() ==> -c <= #[trigger] s[i] <= c,
    ensures
        agg_fits(MergeOp::Sum, s),
{
    assert(s.len() * c <= 0x4000_0000) by (nonlinear_arith)
        requires
            0 <= c <= 0x8000,
            s.len() <= 0x8000,
    ;
    assert forall|i: int, j: int| 0 <= i <= j < s.len() implies in_i32(
        #[trigger] fold_vals(MergeOp::Sum, s.subrange(i, j + 1)),
    ) by {
        let sub = s.subrange(i, j + 1);
        lemma_sum_bound(sub, c);
        assert(sub.len() * c <= s.len() * c) by (nonlinear_arith)
            requires
                sub.len() <= s.len(),
                c >= 0,
        ;
    }
}

/// Strictly increasing order.
pub open spec fn strictly_sorted(s: Seq<i32>) -> bool {
    forall|a: int, b: int| 0 <= a < b < s.len() ==> s[a] < s[b]
}

/// Insertion sort for the endpoint values, ascending with duplicates kept.
fn sort_i32(v: &mut Vec<i32>)
    ensures
        final(v)@.len() == old(v)@.len(),
        forall|a: int, b: int| 0 <= a < b < final(v)@.len() ==> final(v)@[a] <= final(v)@[b],
{
    let n = v.len();
    let mut out: Vec<i32> = Vec::new();
    let mut i: usize = 0;
    while i < n
        invariant
            i <= n,
            n == old(v)@.len(),
            v@ == old(v)@,
            out@.len() == i,
            forall|a: int, b: int| 0 <= a < b < out@.len() ==> out@[a] <= out@[b],
        decreases n - i,
    {
        let x = v[i];
        let mut pos: usize = out.len();
        while pos > 0 && out[pos - 1] > x
            invariant
                pos <= out@.len(),
                forall|a: int, b: int| 0 <= a < b < out@.len() ==> out@[a] <= out@[b],
                forall|kk: int| pos <= kk < out@.len() ==> out@[kk] > x,
            decreases pos,
        {
            pos = pos - 1;
        }
        let ghost before = out@;
        out.insert(pos, x);
        proof {
            let after = out@;
            let p = pos as int;
            assert forall|a: int, b: int| 0 <= a < b < after.len() implies after[a] <= after[b] by {
                if b < p {
                } else if a > p {
                    assert(after[a] == before[a - 1] && after[b] == before[b - 1]);
                } else if a < p && b == p {
                    assert(after[a] == before[a] && after[b] == x);
                    assert(before[p - 1] <= x);
                    if a < p - 1 {
                        assert(before[a] <= before[p - 1]);
                    }
                } else if a < p && b > p {
                    assert(after[a] == before[a] && after[b] == before[b - 1]);
                } else {
                    assert(after[a] == x && after[b] == before[b - 1]);
                }
            }
        }
        i = i + 1;
    }
    *v = out;
}

/// Keep the first of every run of equal values of a sorted list.
fn dedup_sorted(v: &Vec<i32>) -> (out: Vec<i32>)
    requires
        forall|a: int, b: int| 0 <= a < b < v@.len() ==> v@[a] <= v@[b],
    ensures
        strictly_sorted(out@),
        out@.len() <= v@.len(),
        v@.len() >= 1 ==> out@.len() >= 1,
{
    let mut out: Vec<i32> = Vec::new();
    let mut i: usize = 0;
    while i < v.len()
        invariant
            i <= v@.len(),
            forall|a: int, b: int| 0 <= a < b < v@.len() ==> v@[a] <= v@[b],
            strictly_sorted(out@),
            out@.len() <= i,
            i >= 1 ==> out@.len() >= 1,
            out@.len() >= 1 ==> i >= 1 && out@[out@.len() - 1] <= v@[i - 1],
        decreases v@.len() - i,
    {
        let x = v[i];
        if out.len() == 0 {
            out.push(x);
        } else {
            let last = out[out.len() - 1];
            if last != x {
                out.push(x);
            }
        }
        i = i + 1;
    }
    out
}

pub struct Solution;

impl Solution {
    /// Endpoints remapped to their ranks among all distinct endpoint
    /// values, with each segment's original position kept.
    pub fn remap_segments(segments: &[(i32, i32)]) -> (r: (Vec<(usize, usize, usize)>, usize))
        requires
            1 <= segments@.len(),
            segments@.len() <= 16000,
        ensures
            r.0@.len() == segments@.len(),
            1 <= r.1 <= 2 * segments@.len(),
            forall|k: int|
                0 <= k < r.0@.len() ==> (#[trigger] r.0@[k]).0 < r.1 && r.0@[k].1 < r.1
                    && r.0@[k].2 < segments@.len(),
    {
        proof {
            broadcast use vstd::std_specs::hash::axiom_i32_obeys_hash_table_key_model;
            broadcast use vstd::std_specs::hash::axiom_random_state_builds_valid_hashers;

        }
        let n = segments.len();
        let mut extreme: Vec<i32> = Vec::new();
        let mut i: usize = 0;
        while i < n
            invariant
                i <= n,
                n == segments@.len(),
                extreme@.len() == 2 * i,
            decreases n - i,
        {
            let (s, e) = segments[i];
            extreme.push(s);
            extreme.push(e);
            i = i + 1;
        }
        sort_i32(&mut extreme);
        let extreme = dedup_sorted(&extreme);
        let n_extremes = extreme.len();
        let mut pos: HashMap<i32, usize> = HashMap::new();
        let mut j: usize = 0;
        while j < n_extremes
            invariant
                j <= n_extremes,
                n_extremes == extreme@.len(),
                vstd::std_specs::hash::obeys_key_model::<i32>(),
                vstd::std_specs::hash::builds_valid_hashers::<std::hash::RandomState>(),
                forall|k: i32| #[trigger] pos@.contains_key(k) ==> pos@[k] < n_extremes,
            decreases n_extremes - j,
        {
            pos.insert(extreme[j], j);
            j = j + 1;
        }
        let mut remapped: Vec<(usize, usize, usize)> = Vec::new();
        let mut t: usize = 0;
        while t < n
            invariant
                t <= n,
                n == segments@.len(),
                n_extremes >= 1,
                n_extremes == extreme@.len(),
                extreme@.len() <= 2 * n,
                vstd::std_specs::hash::obeys_key_model::<i32>(),
                vstd::std_specs::hash::builds_valid_hashers::<std::hash::RandomState>(),
                forall|k: i32| #[trigger] pos@.contains_key(k) ==> pos@[k] < n_extremes,
                remapped@.len() == t,
                forall|k: int|
                    0 <= k < remapped@.len() ==> (#[trigger] remapped@[k]).0 < n_extremes
                        && remapped@[k].1 < n_extremes && remapped@[k].2 < n,
            decreases n - t,
        {
            let (s, e) = segments[t];
            // the maps were built over every endpoint; an absent endpoint
            // cannot happen, fall back to rank zero
            let rs: usize = match pos.get(&s) {
                Some(p) => *p,
                None => 0,
            };
            let re: usize = match pos.get(&e) {
                Some(p) => *p,
                None => 0,
            };
            remapped.push((rs, re, t));
            t = t + 1;
        }
        (remapped, n_extremes)
    }

    /// For each segment, how many other segments lie strictly inside it:
    /// sweep the segments from the one ending last, keeping a count of
    /// segment starts in a sum tree over the endpoint ranks. One count per
    /// input segment comes back, in input order.
    pub fn nested_segment(segments: &[(i32, i32)]) -> (res: Vec<i32>)
        requires
            1 <= segments@.len(),
            segments@.len() <= 16000,
        ensures
            res@.len() == segments@.len(),
    {
        let n = segments.len();
        let mut res: Vec<i32> = Vec::new();
        let mut z: usize = 0;
        while z < n
            invariant
                z <= n,
                res@.len() == z,
            decreases n - z,
        {
            res.push(0);
            z = z + 1;
        }
        let (mut remapped, n_extremes) = Self::remap_segments(segments);
        let mut segment_tree = IntegerSegmentTree::build_empty(n_extremes, 0, MergeOp::Sum);
        let ghost bound: int = segments@.len() as int;
        proof {
            lemma_bounded_agg_fits(segment_tree.leaves(), bound);
            segment_tree.lemma_model();
        }
        // count each segment's start rank
        let mut t: usize = 0;
        while t < remapped.len()
            invariant
                t <= remapped@.len(),
                remapped@.len() == n,
                1 <= n <= 16000,
                bound == n as int,
                segment_tree.wf(),
                segment_tree.merge_op() == MergeOp::Sum,
                segment_tree.leaf_count() == n_extremes,
                1 <= n_extremes <= 2 * n,
                segment_tree.leaves().len() == n_extremes,
                forall|k: int|
                    0 <= k < remapped@.len() ==> (#[trigger] remapped@[k]).0 < n_extremes
                        && remapped@[k].1 < n_extremes,
                forall|k: int|
                    0 <= k < segment_tree.leaves().len() ==> 0 <= #[trigger] segment_tree.leaves()[k]
                        <= t as int,
            decreases remapped@.len() - t,
        {
            let (s, _, _) = remapped[t];
            proof {
                let updated = segment_tree.leaves().update(
                    s as int,
                    mop(MergeOp::Sum, segment_tree.leaves()[s as int], 1),
                );
                lemma_bounded_agg_fits(updated, bound);
            }
            segment_tree.add(s, 1);
            t = t + 1;
        }
        // sweep from the segment that ends last
        sort_by_end_desc(&mut remapped, Ghost(n_extremes as int), Ghost(n as int));
        let mut q: usize = 0;
        while q < remapped.len()
            invariant
                q <= remapped@.len(),
                remapped@.len() == n,
                1 <= n <= 16000,
                bound == n as int,
                res@.len() == n,
                segment_tree.wf(),
                segment_tree.merge_op() == MergeOp::Sum,
                segment_tree.leaf_count() == n_extremes,
                1 <= n_extremes <= 2 * n,
                segment_tree.leaves().len() == n_extremes,
                forall|k: int|
                    0 <= k < remapped@.len() ==> (#[trigger] remapped@[k]).0 < n_extremes
                        && remapped@[k].1 < n_extremes && remapped@[k].2 < n,
                forall|k: int|
                    0 <= k < segment_tree.leaves().len() ==> -(q as int) <= #[trigger] segment_tree.leaves()[k]
                        <= bound,
            decreases remapped@.len() - q,
        {
            let (s, e, original_index) = remapped[q];
            proof {
                lemma_bounded_agg_fits(segment_tree.leaves(), bound);
            }
            // starts strictly inside (s, e): segments opening after s that,
            // ending before the sweep's current segment, must close inside
            let inner = if e >= 1 {
                segment_tree.query(s + 1, e - 1)
            } else {
                0
            };
            res.set(original_index, inner);
            proof {
                let updated = segment_tree.leaves().update(
                    s as int,
                    mop(MergeOp::Sum, segment_tree.leaves()[s as int], -1),
                );
                lemma_bounded_agg_fits(updated, bound);
            }
            segment_tree.add(s, -1);
            q = q + 1;
        }
        res
    }
}

/// Insertion sort of the remapped segments by end rank, descending. The
/// rank and position bounds of the entries are kept.
fn sort_by_end_desc(v: &mut Vec<(usize, usize, usize)>, Ghost(b0): Ghost<int>, Ghost(b2): Ghost<int>)
    requires
        forall|k: int|
            0 <= k < old(v)@.len() ==> (#[trigger] old(v)@[k]).0 < b0 && old(v)@[k].1 < b0
                && old(v)@[k].2 < b2,
    ensures
        final(v)@.len() == old(v)@.len(),
        forall|k: int|
            0 <= k < final(v)@.len() ==> (#[trigger] final(v)@[k]).0 < b0 && final(v)@[k].1 < b0
                && final(v)@[k].2 < b2,
{
    let n = v.len();
    let mut out: Vec<(usize, usize, usize)> = Vec::new();
    let mut i: usize = 0;
    while i < n
        invariant
            i <= n,
            n == old(v)@.len(),
            v@ == old(v)@,
            out@.len() == i,
            forall|k: int|
                0 <= k < old(v)@.len() ==> (#[trigger] old(v)@[k]).0 < b0 && old(v)@[k].1 < b0
                    && old(v)@[k].2 < b2,
            forall|k: int|
                0 <= k < out@.len() ==> (#[trigger] out@[k]).0 < b0 && out@[k].1 < b0
                    && out@[k].2 < b2,
        decreases n - i,
    {
        let x = v[i];
        let mut pos: usize = out.len();
        while pos > 0 && out[pos - 1].1 < x.1
            invariant
                pos <= out@.len(),
            decreases pos,
        {
            pos = pos - 1;
        }
        out.insert(pos, x);
        i = i + 1;
    }
    *v = out;
}

} // verus!
