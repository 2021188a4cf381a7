use vstd::prelude::*;
use crate::range::Range;
use crate::range::left_right_child_index;

verus! {

// ===========================================================================
// A segment tree for membership queries: every node keeps the values of the
// segment it owns, so "is some element of [i, j] equal to k" is answered by
// a membership test at O(log n) totally-overlapped nodes.
// ===========================================================================

pub open spec fn opt_elems(o: Option<Vec<u32>>) -> Seq<u32> {
    match o {
        Some(v) => v@,
        None => Seq::empty(),
    }
}

/// The elements owned by the node at `idx` covering `[l, r]`.
pub open spec fn seg_elems(t: Seq<Option<Vec<u32>>>, l: int, r: int, idx: int) -> Seq<u32>
    decreases r - l,
{
    if l >= r {
        opt_elems(t[idx])
    } else {
        let m = (l + r) / 2;
        seg_elems(t, l, m, idx + 1) + seg_elems(t, m + 1, r, idx + 2 * (m - l + 1))
    }
}

/// Layout well-formedness: every node holds exactly the values of its
/// segment, in index order.
pub open spec fn seg_wf(t: Seq<Option<Vec<u32>>>, l: int, r: int, idx: int) -> bool
    decreases r - l,
{
    &&& 0 <= l
    &&& l <= r
    &&& 0 <= idx
    &&& idx + 2 * (r - l) < t.len()
    &&& t[idx] is Some
    &&& opt_elems(t[idx]).len() == r - l + 1
    &&& (l < r ==> {
        let m = (l + r) / 2;
        &&& seg_wf(t, l, m, idx + 1)
        &&& seg_wf(t, m + 1, r, idx + 2 * (m - l + 1))
        &&& opt_elems(t[idx]) == seg_elems(t, l, m, idx + 1) + seg_elems(
            t,
            m + 1,
            r,
            idx + 2 * (m - l + 1),
        )
    })
}

/// The subtree model depends only on the slots the subtree owns.
pub proof fn lemma_seg_frame(
    t1: Seq<Option<Vec<u32>>>,
    t2: Seq<Option<Vec<u32>>>,
    l: int,
    r: int,
    idx: int,
)
    requires
        0 <= l <= r,
        0 <= idx,
        t1.len() == t2.len(),
        forall|k: int| idx <= k <= idx + 2 * (r - l) ==> (k < t1.len() ==> t1[k] == t2[k]),
    ensures
        idx + 2 * (r - l) < t1.len() ==> seg_elems(t1, l, r, idx) == seg_elems(t2, l, r, idx),
        seg_wf(t1, l, r, idx) == seg_wf(t2, l, r, idx),
    decreases r - l,
{
    if l < r {
        let m = (l + r) / 2;
        lemma_seg_frame(t1, t2, l, m, idx + 1);
        lemma_seg_frame(t1, t2, m + 1, r, idx + 2 * (m - l + 1));
    }
}

/// A well-formed subtree owns one element per index of its segment.
pub proof fn lemma_seg_len(t: Seq<Option<Vec<u32>>>, l: int, r: int, idx: int)
    requires
        seg_wf(t, l, r, idx),
    ensures
        seg_elems(t, l, r, idx).len() == r - l + 1,
        opt_elems(t[idx]) == seg_elems(t, l, r, idx),
    decreases r - l,
{
    if l < r {
        let m = (l + r) / 2;
        lemma_seg_len(t, l, m, idx + 1);
        lemma_seg_len(t, m + 1, r, idx + 2 * (m - l + 1));
    }
}

/// Backing store of the membership tree: one value list per implicit node.
pub struct HashSetSegmentTree {
    tree: Vec<Option<Vec<u32>>>,
    num_leaf: usize,
}

impl HashSetSegmentTree {
    pub closed spec fn wf(self) -> bool {
        &&& self.num_leaf >= 1
        &&& self.tree@.len() == 2 * (self.num_leaf as int) - 1
        &&& seg_wf(self.tree@, 0, self.num_leaf as int - 1, 0)
    }

    /// The model: the element sequence the tree was built over.
    pub closed spec fn elems(self) -> Seq<u32> {
        seg_elems(self.tree@, 0, self.num_leaf as int - 1, 0)
    }

    pub closed spec fn elem_count(self) -> int {
        self.num_leaf as int
    }

    pub proof fn lemma_model(self)
        requires
            self.wf(),
        ensures
            self.elems().len() == self.elem_count(),
    {
        lemma_seg_len(self.tree@, 0, self.num_leaf as int - 1, 0);
    }

    pub fn build(a: &[u32]) -> (st: HashSetSegmentTree)
        requires
            1 <= a@.len(),
            a@.len() <= 0x4000_0000,
        ensures
            st.wf(),
            st.elem_count() == a@.len(),
            st.elems() == a@,
    {
        let n = a.len();
        let mut implicit_tree: Vec<Option<Vec<u32>>> = Vec::new();
        let slots = 2 * n - 1;
        let mut i: usize = 0;
        while i < slots
            invariant
                i <= slots,
                implicit_tree@.len() == i,
                forall|k: int| 0 <= k < i ==> implicit_tree@[k] is None,
            decreases slots - i,
        {
            implicit_tree.push(None);
            i = i + 1;
        }
        Self::build_rec(a, &mut implicit_tree, Range::new(0, n - 1), 0);
        let st = Self { tree: implicit_tree, num_leaf: n };
        proof {
            assert(a@.subrange(0, n as int) =~= a@);
        }
        st
    }

    fn build_rec(a: &[u32], tree: &mut Vec<Option<Vec<u32>>>, node_segment: Range, index: usize)
        requires
            node_segment.start <= node_segment.end,
            node_segment.end < a@.len(),
            index + 2 * (node_segment.end - node_segment.start) < old(tree)@.len(),
        ensures
            final(tree)@.len() == old(tree)@.len(),
            forall|k: int|
                0 <= k < old(tree)@.len() && !(index <= k <= index + 2 * (node_segment.end
                    - node_segment.start)) ==> final(tree)@[k] == old(tree)@[k],
            seg_wf(final(tree)@, node_segment.start as int, node_segment.end as int, index as int),
            seg_elems(
                final(tree)@,
                node_segment.start as int,
                node_segment.end as int,
                index as int,
            ) == a@.subrange(node_segment.start as int, node_segment.end as int + 1),
        decreases node_segment.end - node_segment.start,
    {
        let capacity = tree.len();
        let elems = a.len();
        assert(node_segment.end < elems && index + 2 * (node_segment.end - node_segment.start)
            < capacity);
        let s = node_segment.start;
        let e = node_segment.end;
        if node_segment.is_single_point() {
            let mut single: Vec<u32> = Vec::new();
            single.push(a[s]);
            tree.set(index, Some(single));
            proof {
                assert(seg_elems(tree@, s as int, e as int, index as int) =~= a@.subrange(
                    s as int,
                    e as int + 1,
                ));
            }
            return ;
        }
        let middle = node_segment.middle();
        let (left_child_index, right_child_index) = left_right_child_index(node_segment, index);
        Self::build_rec(a, tree, Range::new(s, middle), left_child_index);
        let ghost t_a = tree@;
        Self::build_rec(a, tree, Range::new(middle + 1, e), right_child_index);
        let ghost t_b = tree@;
        proof {
            lemma_seg_frame(t_a, t_b, s as int, middle as int, left_child_index as int);
            lemma_seg_len(t_b, s as int, middle as int, left_child_index as int);
            lemma_seg_len(t_b, middle as int + 1, e as int, right_child_index as int);
        }
        // gather the node's own member list from its children
        let mut new_set: Vec<u32> = Vec::new();
        let left = tree[left_child_index].as_ref().unwrap();
        let mut i: usize = 0;
        while i < left.len()
            invariant
                i <= left@.len(),
                new_set@ =~= left@.subrange(0, i as int),
            decreases left@.len() - i,
        {
            new_set.push(left[i]);
            i = i + 1;
        }
        let right = tree[right_child_index].as_ref().unwrap();
        let mut j: usize = 0;
        while j < right.len()
            invariant
                j <= right@.len(),
                new_set@ =~= left@.subrange(0, left@.len() as int) + right@.subrange(0, j as int),
            decreases right@.len() - j,
        {
            new_set.push(right[j]);
            j = j + 1;
        }
        proof {
            assert(new_set@ =~= left@ + right@);
        }
        tree.set(index, Some(new_set));
        proof {
            let si = s as int;
            let ei = e as int;
            let mi = middle as int;
            let li = left_child_index as int;
            let ri = right_child_index as int;
            lemma_seg_frame(t_b, tree@, si, mi, li);
            lemma_seg_frame(t_b, tree@, mi + 1, ei, ri);
            lemma_seg_len(tree@, si, mi, li);
            lemma_seg_len(tree@, mi + 1, ei, ri);
            assert(opt_elems(tree@[index as int]) == left@ + right@);
            assert(seg_wf(tree@, si, ei, index as int));
            assert(seg_elems(tree@, si, ei, index as int) =~= a@.subrange(si, ei + 1));
        }
    }

    /// Is some element of `[i, j]` equal to `k`? An inverted range holds
    /// nothing.
    pub fn is_value_present(&self, i: usize, j: usize, k: u32) -> (res: bool)
        requires
            self.wf(),
            i > j || j < self.elem_count(),
        ensures
            res == exists|p: int| i <= p <= j && 0 <= p < self.elem_count() && self.elems()[p] == k,
    {
        if i > j {
            return false;
        }
        proof {
            self.lemma_model();
        }
        let res = self.value_present_rec(Range::new(i, j), Range::new(0, self.num_leaf - 1), 0, k);
        proof {
            let n = self.num_leaf as int;
            let root = seg_elems(self.tree@, 0, n - 1, 0);
            if res {
                let p = choose|p: int|
                    i <= p <= j && 0 <= p <= n - 1 && #[trigger] root[p - 0] == k;
                assert(self.elems()[p] == k);
            } else {
                assert forall|p: int| i <= p <= j && 0 <= p < n implies #[trigger] self.elems()[p]
                    != k by {
                    assert(root[p - 0] == self.elems()[p]);
                }
            }
        }
        res
    }

    fn value_present_rec(
        &self,
        query_range: Range,
        node_segment: Range,
        index: usize,
        to_search: u32,
    ) -> (res: bool)
        requires
            query_range.start <= query_range.end,
            node_segment.start <= node_segment.end,
            index + 2 * (node_segment.end - node_segment.start) < self.tree@.len(),
            seg_wf(
                self.tree@,
                node_segment.start as int,
                node_segment.end as int,
                index as int,
            ),
        ensures
            res == exists|p: int|
                query_range.start <= p <= query_range.end && node_segment.start <= p
                    <= node_segment.end && #[trigger] seg_elems(
                    self.tree@,
                    node_segment.start as int,
                    node_segment.end as int,
                    index as int,
                )[p - node_segment.start] == to_search,
        decreases node_segment.end - node_segment.start,
    {
        let ghost s = node_segment.start as int;
        let ghost e = node_segment.end as int;
        let ghost ix = index as int;
        let ghost qs = query_range.start as int;
        let ghost qe = query_range.end as int;
        let ghost elems = seg_elems(self.tree@, s, e, ix);
        proof {
            lemma_seg_len(self.tree@, s, e, ix);
        }
        let total = self.tree.len();
        assert(index + 2 * (node_segment.end - node_segment.start) < total);
        if query_range.no_overlap(node_segment) {
            return false;
        }
        if query_range.total_overlap(node_segment) {
            let members = self.tree[index].as_ref().unwrap();
            let res = vec_contains(members, to_search);
            proof {
                if res {
                    let w = choose|w: int| 0 <= w < members@.len() && members@[w] == to_search;
                    assert(elems[w] == to_search);
                    assert(qs <= s + w <= qe && s <= s + w <= e);
                    assert(elems[(s + w) - s] == to_search);
                } else {
                    assert forall|p: int| qs <= p <= qe && s <= p <= e implies #[trigger] elems[p
                        - s] != to_search by {
                        assert(members@[p - s] == elems[p - s]);
                    }
                }
            }
            return res;
        }
        let middle = node_segment.middle();
        let (left_child_index, right_child_index) = left_right_child_index(node_segment, index);
        let ghost mi = middle as int;
        proof {
            lemma_seg_len(self.tree@, s, mi, left_child_index as int);
            lemma_seg_len(self.tree@, mi + 1, e, right_child_index as int);
            assert(elems == seg_elems(self.tree@, s, mi, left_child_index as int) + seg_elems(
                self.tree@,
                mi + 1,
                e,
                right_child_index as int,
            ));
        }
        let left_value = self.value_present_rec(
            query_range,
            Range::new(node_segment.start, middle),
            left_child_index,
            to_search,
        );
        let right_value = self.value_present_rec(
            query_range,
            Range::new(middle + 1, node_segment.end),
            right_child_index,
            to_search,
        );
        let res = left_value || right_value;
        proof {
            let ll = seg_elems(self.tree@, s, mi, left_child_index as int);
            let rl = seg_elems(self.tree@, mi + 1, e, right_child_index as int);
            if res {
                if left_value {
                    let p = choose|p: int| qs <= p <= qe && s <= p <= mi && #[trigger] ll[p - s]
                        == to_search;
                    assert(elems[p - s] == to_search);
                } else {
                    let p = choose|p: int|
                        qs <= p <= qe && mi + 1 <= p <= e && #[trigger] rl[p - (mi + 1)]
                            == to_search;
                    assert(elems[p - s] == to_search);
                }
            } else {
                assert forall|p: int| qs <= p <= qe && s <= p <= e implies #[trigger] elems[p - s]
                    != to_search by {
                    if p <= mi {
                        assert(elems[p - s] == ll[p - s]);
                    } else {
                        assert(elems[p - s] == rl[p - (mi + 1)]);
                    }
                }
            }
        }
        res
    }
}

/// How many of the segments cover position `p`.
pub open spec fn coverage(segs: Seq<(usize, usize)>, p: int) -> int
    decreases segs.len(),
{
    if segs.len() == 0 {
        0
    } else {
        coverage(segs.drop_last(), p) + (if segs.last().0 <= p <= segs.last().1 {
            1int
        } else {
            0int
        })
    }
}

pub proof fn lemma_coverage_bounds(segs: Seq<(usize, usize)>, p: int)
    ensures
        0 <= coverage(segs, p) <= segs.len(),
    decreases segs.len(),
{
    if segs.len() > 0 {
        lemma_coverage_bounds(segs.drop_last(), p);
    }
}

/// Sum of the first `p + 1` entries of a difference array.
pub open spec fn psum(d: Seq<i32>, p: int) -> int
    decreases p + 1,
{
    if p < 0 {
        0
    } else {
        psum(d, p - 1) + d[p]
    }
}

pub proof fn lemma_psum_update(d: Seq<i32>, a: int, x: i32, p: int)
    requires
        0 <= a < d.len(),
        p < d.len(),
    ensures
        psum(d.update(a, x), p) == psum(d, p) + (if a <= p {
            x - d[a]
        } else {
            0int
        }),
    decreases p + 1,
{
    if p >= 0 {
        lemma_psum_update(d, a, x, p - 1);
    }
}

/// Membership of coverage counts over ranges of positions: the segments are
/// swept into a difference array whose prefix sums count, for each position,
/// the segments covering it; a membership tree over those counts answers
/// whether some position of a range is covered exactly `k` times.
pub struct SegmentSet {
    st: HashSetSegmentTree,
    segs: Ghost<Seq<(usize, usize)>>,
}

impl SegmentSet {
    pub closed spec fn wf(self) -> bool {
        &&& self.st.wf()
        &&& self.st.elem_count() == self.segs@.len()
        &&& self.st.elems().len() == self.segs@.len()
        &&& forall|p: int|
            0 <= p < self.segs@.len() ==> #[trigger] self.st.elems()[p] as int == coverage(
                self.segs@,
                p,
            )
    }

    /// The segments this structure was built over.
    pub closed spec fn segments(self) -> Seq<(usize, usize)> {
        self.segs@
    }

    /// Positions and segment ends share the universe `[0, n - 1]`; callers
    /// remap sparse coordinates beforehand.
    pub fn build(segments: &[(usize, usize)]) -> (st: SegmentSet)
        requires
            1 <= segments@.len(),
            segments@.len() <= 0x4000_0000,
            forall|t: int|
                0 <= t < segments@.len() ==> #[trigger] segments@[t].0 <= segments@[t].1
                    && segments@[t].1 < segments@.len(),
        ensures
            st.wf(),
            st.segments() == segments@,
    {
        let n = segments.len();
        let mut diff: Vec<i32> = Vec::new();
        let mut i: usize = 0;
        while i < n
            invariant
                i <= n,
                diff@.len() == i,
                forall|q: int| 0 <= q < i ==> #[trigger] diff@[q] == 0i32,
            decreases n - i,
        {
            diff.push(0);
            i = i + 1;
        }
        proof {
            assert forall|p: int| p < n implies psum(diff@, p) == coverage(
                segments@.subrange(0, 0),
                p,
            ) by {
                lemma_psum_zero(diff@, p);
            }
        }
        // count +1 where a segment opens and -1 one past where it closes
        let mut t: usize = 0;
        while t < n
            invariant
                t <= n,
                n == segments@.len(),
                n <= 0x4000_0000,
                diff@.len() == n,
                forall|q: int| 0 <= q < n ==> -(t as int) <= #[trigger] diff@[q] <= t as int,
                forall|p: int|
                    p < n ==> #[trigger] psum(diff@, p) == coverage(segments@.subrange(0, t as int), p),
                forall|tt: int|
                    0 <= tt < n ==> #[trigger] segments@[tt].0 <= segments@[tt].1
                        && segments@[tt].1 < n,
            decreases n - t,
        {
            let (a, b) = segments[t];
            let ghost d0 = diff@;
            let da = diff[a];
            diff.set(a, da + 1);
            let ghost d1 = diff@;
            if b + 1 < n {
                let db = diff[b + 1];
                diff.set(b + 1, db - 1);
            }
            proof {
                let taken = segments@.subrange(0, t as int);
                let taken1 = segments@.subrange(0, t as int + 1);
                assert(taken1.drop_last() =~= taken);
                assert(taken1.last() == segments@[t as int]);
                assert forall|p: int| p < n implies #[trigger] psum(diff@, p) == coverage(
                    taken1,
                    p,
                ) by {
                    lemma_psum_update(d0, a as int, (da + 1) as i32, p);
                    if b + 1 < n {
                        lemma_psum_update(d1, b as int + 1, (diff@[b as int + 1]) as i32, p);
                    }
                }
            }
            t = t + 1;
        }
        proof {
            assert(segments@.subrange(0, n as int) =~= segments@);
        }
        // prefix sums turn the difference array into per-position counts
        let mut segment_coverage: Vec<u32> = Vec::new();
        let mut acc: i32 = 0;
        let mut idx: usize = 0;
        while idx < n
            invariant
                idx <= n,
                n == segments@.len(),
                n <= 0x4000_0000,
                diff@.len() == n,
                forall|q: int| 0 <= q < n ==> -(n as int) <= #[trigger] diff@[q] <= n as int,
                segment_coverage@.len() == idx,
                acc as int == psum(diff@, idx as int - 1),
                forall|p: int| p < n ==> #[trigger] psum(diff@, p) == coverage(segments@, p),
                forall|p: int|
                    0 <= p < idx ==> #[trigger] segment_coverage@[p] as int == coverage(
                        segments@,
                        p,
                    ),
            decreases n - idx,
        {
            proof {
                lemma_coverage_bounds(segments@, idx as int);
                lemma_coverage_bounds(segments@, idx as int - 1);
                assert(psum(diff@, idx as int) == psum(diff@, idx as int - 1) + diff@[idx as int]);
                assert(psum(diff@, idx as int) == coverage(segments@, idx as int));
            }
            acc = acc + diff[idx];
            assert(0 <= acc as int <= n as int);
            segment_coverage.push(acc as u32);
            idx = idx + 1;
        }
        let st = HashSetSegmentTree::build(segment_coverage.as_slice());
        SegmentSet { st, segs: Ghost(segments@) }
    }

    /// Is some position of `[i, j]` covered by exactly `k` segments? An
    /// inverted range holds nothing.
    pub fn is_there(&self, i: usize, j: usize, k: u32) -> (res: bool)
        requires
            self.wf(),
            i > j || j < self.segments().len(),
        ensures
            res == exists|p: int|
                i <= p <= j && 0 <= p < self.segments().len() && coverage(self.segments(), p)
                    == k as int,
    {
        let res = self.st.is_value_present(i, j, k);
        proof {
            if res {
                let p = choose|p: int|
                    i <= p <= j && 0 <= p < self.st.elem_count() && self.st.elems()[p] == k;
                assert(coverage(self.segments(), p) == k as int);
            } else {
                assert forall|p: int| i <= p <= j && 0 <= p < self.segments().len() implies
                    coverage(self.segments(), p) != k as int by {
                    assert(self.st.elems()[p] != k);
                    assert(self.st.elems()[p] as int == coverage(self.segments(), p));
                }
            }
        }
        res
    }
}

pub proof fn lemma_psum_zero(d: Seq<i32>, p: int)
    requires
        forall|q: int| 0 <= q < d.len() ==> #[trigger] d[q] == 0i32,
        p < d.len(),
    ensures
        psum(d, p) == 0,
    decreases p + 1,
{
    if p >= 0 {
        lemma_psum_zero(d, p - 1);
    }
}

/// Linear membership test over a value list.
fn vec_contains(v: &Vec<u32>, x: u32) -> (res: bool)
    ensures
        res == exists|i: int| 0 <= i < v@.len() && v@[i] == x,
{
    let mut i: usize = 0;
    while i < v.len()
        invariant
            i <= v@.len(),
            forall|k: int| 0 <= k < i ==> v@[k] != x,
        decreases v@.len() - i,
    {
        if v[i] == x {
            return true;
        }
        i = i + 1;
    }
    false
}

} // verus!
