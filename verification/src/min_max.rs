use vstd::prelude::*;
use crate::range::Range;
use crate::range::left_right_child_index;
use crate::integer_segment_tree::seg_of;

verus! {

// ===========================================================================
// Mathematical model
//
// A `MaxSegmentTree` answers range-maximum queries while a range update
// replaces every element `x` of the range by `min(x, t)`. The model of the
// structure is the sequence of its leaf values; a pending update recorded at
// a node stands for a `min` applied lazily to every leaf of that subtree.
// ===========================================================================

pub open spec fn max2(a: int, b: int) -> int {
    if a >= b {
        a
    } else {
        b
    }
}

pub open spec fn min2(a: int, b: int) -> int {
    if a <= b {
        a
    } else {
        b
    }
}

/// Maximum of a non-empty sequence.
pub open spec fn seq_max(s: Seq<int>) -> int
    recommends
        s.len() >= 1,
    decreases s.len(),
{
    if s.len() <= 1 {
        s[0]
    } else {
        max2(seq_max(s.drop_last()), s.last())
    }
}

pub open spec fn mid(l: int, r: int) -> int {
    (l + r) / 2
}

/// Effect of an optional pending update on the leaves below it.
pub open spec fn pend_apply(p: Option<u32>, s: Seq<int>) -> Seq<int> {
    match p {
        Some(v) => s.map_values(|x: int| min2(x, v as int)),
        None => s,
    }
}

/// Composition of a pending slot with one more update, as the code records it.
pub open spec fn pend_join(p: Option<u32>, v: u32) -> Option<u32> {
    match p {
        Some(w) => Some(if w <= v { w } else { v }),
        None => Some(v),
    }
}

/// The true element values covered by the node at `idx` owning `[l, r]`:
/// the stored leaves with every pending update of the subtree applied.
pub open spec fn sub_leaves(t: Seq<u32>, p: Seq<Option<u32>>, l: int, r: int, idx: int) -> Seq<int>
    decreases r - l,
{
    let base = if l >= r {
        seq![t[idx] as int]
    } else {
        sub_leaves(t, p, l, mid(l, r), idx + 1) + sub_leaves(
            t,
            p,
            mid(l, r) + 1,
            r,
            idx + 2 * (mid(l, r) - l + 1),
        )
    };
    pend_apply(p[idx], base)
}

/// The aggregate the node at `idx` stands for, its own pending included.
pub open spec fn sub_val(t: Seq<u32>, p: Seq<Option<u32>>, l: int, r: int, idx: int) -> int {
    match p[idx] {
        Some(v) => min2(t[idx] as int, v as int),
        None => t[idx] as int,
    }
}

/// Well-formedness of the subtree rooted at `idx` owning `[l, r]`: the layout
/// fits in the backing store and every internal node stores the maximum of
/// its children's aggregates (children's pendings included, its own excluded).
pub open spec fn sub_wf(t: Seq<u32>, p: Seq<Option<u32>>, l: int, r: int, idx: int) -> bool
    decreases r - l,
{
    &&& 0 <= l
    &&& l <= r
    &&& 0 <= idx
    &&& idx + 2 * (r - l) < t.len()
    &&& (l < r ==> {
        let m = mid(l, r);
        &&& sub_wf(t, p, l, m, idx + 1)
        &&& sub_wf(t, p, m + 1, r, idx + 2 * (m - l + 1))
        &&& t[idx] as int == max2(
            sub_val(t, p, l, m, idx + 1),
            sub_val(t, p, m + 1, r, idx + 2 * (m - l + 1)),
        )
    })
}

pub open spec fn no_pending(n: int) -> Seq<Option<u32>> {
    Seq::new(n as nat, |i: int| None)
}

// ===========================================================================
// Lemmas about the model
// ===========================================================================

pub proof fn lemma_seq_max_concat(a: Seq<int>, b: Seq<int>)
    requires
        a.len() >= 1,
        b.len() >= 1,
    ensures
        seq_max(a + b) == max2(seq_max(a), seq_max(b)),
    decreases b.len(),
{
    if b.len() == 1 {
        assert((a + b).drop_last() =~= a);
        assert((a + b).last() == b[0]);
    } else {
        lemma_seq_max_concat(a, b.drop_last());
        assert((a + b).drop_last() =~= a + b.drop_last());
    }
}

pub proof fn lemma_seq_max_map_min(s: Seq<int>, v: int)
    requires
        s.len() >= 1,
    ensures
        seq_max(s.map_values(|x: int| min2(x, v))) == min2(seq_max(s), v),
    decreases s.len(),
{
    let m = s.map_values(|x: int| min2(x, v));
    if s.len() == 1 {
        assert(m[0] == min2(s[0], v));
    } else {
        lemma_seq_max_map_min(s.drop_last(), v);
        assert(m.drop_last() =~= s.drop_last().map_values(|x: int| min2(x, v)));
        assert(m.last() == min2(s.last(), v));
    }
}

pub proof fn lemma_seq_max_in(s: Seq<int>)
    requires
        s.len() >= 1,
    ensures
        s.contains(seq_max(s)),
        forall|i: int| 0 <= i < s.len() ==> s[i] <= seq_max(s),
    decreases s.len(),
{
    if s.len() == 1 {
        assert(s[0] == seq_max(s));
    } else {
        lemma_seq_max_in(s.drop_last());
        assert(forall|i: int| 0 <= i < s.len() - 1 ==> s[i] == s.drop_last()[i]);
        if seq_max(s.drop_last()) >= s.last() {
            let j = choose|j: int| 0 <= j < s.drop_last().len() && s.drop_last()[j] == seq_max(
                s.drop_last(),
            );
            assert(s[j] == seq_max(s));
        } else {
            assert(s[s.len() - 1] == seq_max(s));
        }
    }
}

/// The model of a subtree depends only on the slots the subtree owns.
pub proof fn lemma_frame(
    t1: Seq<u32>,
    p1: Seq<Option<u32>>,
    t2: Seq<u32>,
    p2: Seq<Option<u32>>,
    l: int,
    r: int,
    idx: int,
)
    requires
        0 <= l <= r,
        0 <= idx,
        t1.len() == t2.len(),
        forall|k: int|
            idx <= k <= idx + 2 * (r - l) ==> (k < t1.len() ==> t1[k] == t2[k] && p1[k] == p2[k]),
    ensures
        idx + 2 * (r - l) < t1.len() ==> sub_leaves(t1, p1, l, r, idx) == sub_leaves(
            t2,
            p2,
            l,
            r,
            idx,
        ) && sub_val(t1, p1, l, r, idx) == sub_val(t2, p2, l, r, idx),
        sub_wf(t1, p1, l, r, idx) == sub_wf(t2, p2, l, r, idx),
    decreases r - l,
{
    if l < r {
        let m = mid(l, r);
        lemma_frame(t1, p1, t2, p2, l, m, idx + 1);
        lemma_frame(t1, p1, t2, p2, m + 1, r, idx + 2 * (m - l + 1));
    }
}

/// Splitting off the pending slot at the root of a subtree.
pub proof fn lemma_split_pending(t: Seq<u32>, p: Seq<Option<u32>>, l: int, r: int, idx: int)
    requires
        0 <= l <= r,
        0 <= idx,
        idx + 2 * (r - l) < t.len(),
        p.len() == t.len(),
    ensures
        sub_leaves(t, p, l, r, idx) == pend_apply(
            p[idx],
            sub_leaves(t, p.update(idx, None), l, r, idx),
        ),
        sub_wf(t, p, l, r, idx) == sub_wf(t, p.update(idx, None), l, r, idx),
        forall|x: Option<u32>|
            sub_wf(t, p, l, r, idx) == #[trigger] sub_wf(t, p.update(idx, x), l, r, idx),
{
    let pn = p.update(idx, None);
    if l >= r {
        assert(sub_leaves(t, pn, l, r, idx) == seq![t[idx] as int]);
    } else {
        let m = mid(l, r);
        let li = idx + 1;
        let ri = idx + 2 * (m - l + 1);
        lemma_frame(t, p, t, pn, l, m, li);
        lemma_frame(t, p, t, pn, m + 1, r, ri);
        assert(sub_leaves(t, pn, l, r, idx) == sub_leaves(t, p, l, m, li) + sub_leaves(
            t,
            p,
            m + 1,
            r,
            ri,
        ));
        assert forall|x: Option<u32>|
            sub_wf(t, p, l, r, idx) == #[trigger] sub_wf(t, p.update(idx, x), l, r, idx) by {
            let px = p.update(idx, x);
            lemma_frame(t, p, t, px, l, m, li);
            lemma_frame(t, p, t, px, m + 1, r, ri);
        }
    }
}

/// Every true element value lies in the `u32` range, the subtree covers
/// exactly its segment, and the stored aggregate is the maximum of the
/// true element values.
pub proof fn lemma_val_is_max(t: Seq<u32>, p: Seq<Option<u32>>, l: int, r: int, idx: int)
    requires
        sub_wf(t, p, l, r, idx),
    ensures
        sub_leaves(t, p, l, r, idx).len() == r - l + 1,
        seq_max(sub_leaves(t, p, l, r, idx)) == sub_val(t, p, l, r, idx),
        forall|k: int|
            0 <= k < r - l + 1 ==> 0 <= #[trigger] sub_leaves(t, p, l, r, idx)[k] <= u32::MAX,
    decreases r - l,
{
    let leaves = sub_leaves(t, p, l, r, idx);
    if l >= r {
        assert(leaves.len() == 1);
    } else {
        let m = mid(l, r);
        let li = idx + 1;
        let ri = idx + 2 * (m - l + 1);
        lemma_val_is_max(t, p, l, m, li);
        lemma_val_is_max(t, p, m + 1, r, ri);
        let bl = sub_leaves(t, p, l, m, li);
        let br = sub_leaves(t, p, m + 1, r, ri);
        lemma_seq_max_concat(bl, br);
        assert(seq_max(bl + br) == t[idx] as int);
        match p[idx] {
            Some(v) => {
                lemma_seq_max_map_min(bl + br, v as int);
            },
            None => {},
        }
    }
}

/// Applying an update `v` to a subtree the way the code does (merge into the
/// stored aggregate, push onto both children's pending slots) maps every true
/// element value `x` of the subtree to `min(x, v)`.
pub proof fn lemma_apply_update(
    t: Seq<u32>,
    p: Seq<Option<u32>>,
    t2: Seq<u32>,
    p2: Seq<Option<u32>>,
    l: int,
    r: int,
    idx: int,
    v: u32,
)
    requires
        sub_wf(t, p, l, r, idx),
        p.len() == t.len(),
        p[idx] is None,
        t2 == t.update(idx, if t[idx] <= v { t[idx] } else { v }),
        p2 == if l < r {
            p.update(idx + 1, pend_join(p[idx + 1], v)).update(
                idx + 2 * (mid(l, r) - l + 1),
                pend_join(p[idx + 2 * (mid(l, r) - l + 1)], v),
            )
        } else {
            p
        },
    ensures
        sub_wf(t2, p2, l, r, idx),
        sub_leaves(t2, p2, l, r, idx) == sub_leaves(t, p, l, r, idx).map_values(
            |x: int| min2(x, v as int),
        ),
        p2[idx] is None,
        sub_val(t2, p2, l, r, idx) == min2(sub_val(t, p, l, r, idx), v as int),
{
    let vv = v as int;
    if l >= r {
        assert(sub_leaves(t2, p2, l, r, idx) =~= sub_leaves(t, p, l, r, idx).map_values(
            |x: int| min2(x, vv),
        ));
    } else {
        let m = mid(l, r);
        let li = idx + 1;
        let ri = idx + 2 * (m - l + 1);
        let svl = sub_val(t, p, l, m, li);
        let svr = sub_val(t, p, m + 1, r, ri);
        lemma_val_is_max(t, p, l, r, idx);
        lemma_val_is_max(t, p, l, m, li);
        lemma_val_is_max(t, p, m + 1, r, ri);

        // The children's stored slots are untouched; only their top pending
        // slots changed, composed with v.
        let pl_none = p.update(li, None);
        let p2l_none = p2.update(li, None);
        lemma_split_pending(t, p, l, m, li);
        lemma_split_pending(t2, p2, l, m, li);
        lemma_frame(t, pl_none, t2, p2l_none, l, m, li);
        let base_l = sub_leaves(t, pl_none, l, m, li);
        assert(sub_leaves(t2, p2l_none, l, m, li) == base_l);
        assert(sub_wf(t2, p2, l, m, li));
        // New left leaves: base with min(old pending, v) applied pointwise.
        assert(sub_leaves(t2, p2, l, m, li) =~= sub_leaves(t, p, l, m, li).map_values(
            |x: int| min2(x, vv),
        )) by {
            assert(sub_leaves(t2, p2, l, m, li) == pend_apply(pend_join(p[li], v), base_l));
            assert(sub_leaves(t, p, l, m, li) == pend_apply(p[li], base_l));
        }

        let pr_none = p.update(ri, None);
        let p2r_none = p2.update(ri, None);
        lemma_split_pending(t, p, m + 1, r, ri);
        lemma_split_pending(t2, p2, m + 1, r, ri);
        lemma_frame(t, pr_none, t2, p2r_none, m + 1, r, ri);
        let base_r = sub_leaves(t, pr_none, m + 1, r, ri);
        assert(sub_leaves(t2, p2r_none, m + 1, r, ri) == base_r);
        assert(sub_wf(t2, p2, m + 1, r, ri));
        assert(sub_leaves(t2, p2, m + 1, r, ri) =~= sub_leaves(t, p, m + 1, r, ri).map_values(
            |x: int| min2(x, vv),
        )) by {
            assert(sub_leaves(t2, p2, m + 1, r, ri) == pend_apply(pend_join(p[ri], v), base_r));
            assert(sub_leaves(t, p, m + 1, r, ri) == pend_apply(p[ri], base_r));
        }

        // New child aggregates are the old ones merged with v.
        assert(sub_val(t2, p2, l, m, li) == min2(svl, vv));
        assert(sub_val(t2, p2, m + 1, r, ri) == min2(svr, vv));
        // min distributes over max, so the new stored root aggregate is right.
        assert(t2[idx] as int == max2(min2(svl, vv), min2(svr, vv)));
        assert(sub_wf(t2, p2, l, r, idx));

        assert(sub_leaves(t2, p2, l, r, idx) =~= sub_leaves(t, p, l, r, idx).map_values(
            |x: int| min2(x, vv),
        ));
    }
}

/// In a pending-free subtree every slot stores exactly the maximum of the
/// elements of the segment it owns.
proof fn lemma_fresh_slots(t: Seq<u32>, p: Seq<Option<u32>>, l: int, r: int, idx: int, q: int)
    requires
        sub_wf(t, p, l, r, idx),
        p.len() == t.len(),
        forall|k: int| idx <= k <= idx + 2 * (r - l) ==> #[trigger] p[k] is None,
        idx <= q <= idx + 2 * (r - l),
    ensures
        seg_of(l, r, idx, q) matches Some(seg) && l <= seg.0 <= seg.1 <= r && t[q] as int
            == seq_max(sub_leaves(t, p, l, r, idx).subrange(seg.0 - l, seg.1 - l + 1)),
    decreases r - l,
{
    let leaves = sub_leaves(t, p, l, r, idx);
    lemma_val_is_max(t, p, l, r, idx);
    if q == idx {
        assert(leaves.subrange(0, r - l + 1) =~= leaves);
    } else {
        let m = mid(l, r);
        let li = idx + 1;
        let ri = idx + 2 * (m - l + 1);
        lemma_val_is_max(t, p, l, m, li);
        lemma_val_is_max(t, p, m + 1, r, ri);
        let ll = sub_leaves(t, p, l, m, li);
        let rl = sub_leaves(t, p, m + 1, r, ri);
        assert(leaves == ll + rl);
        if q < ri {
            lemma_fresh_slots(t, p, l, m, li, q);
            let seg = seg_of(l, m, li, q)->0;
            assert(leaves.subrange(seg.0 - l, seg.1 - l + 1) =~= ll.subrange(
                seg.0 - l,
                seg.1 - l + 1,
            ));
        } else {
            lemma_fresh_slots(t, p, m + 1, r, ri, q);
            let seg = seg_of(m + 1, r, ri, q)->0;
            assert(leaves.subrange(seg.0 - l, seg.1 - l + 1) =~= rl.subrange(
                seg.0 - (m + 1),
                seg.1 - (m + 1) + 1,
            ));
        }
    }
}

// ===========================================================================
// The structure itself
// ===========================================================================

/// Lazy segment tree over `u32` values: `query` returns the maximum of a
/// range, `range_update(i, j, t)` replaces every element `x` of `[i, j]` by
/// `min(x, t)`, deferring work below totally-overlapped nodes.
pub struct MaxSegmentTree {
    tree: Vec<u32>,
    pending_updates: Vec<Option<u32>>,
    num_leaf: usize,
}

impl MaxSegmentTree {
    /// Internal invariant: layout and aggregates are consistent.
    pub closed spec fn wf(self) -> bool {
        &&& self.num_leaf >= 1
        &&& self.tree@.len() == 2 * (self.num_leaf as int) - 1
        &&& self.pending_updates@.len() == self.tree@.len()
        &&& sub_wf(self.tree@, self.pending_updates@, 0, self.num_leaf as int - 1, 0)
    }

    /// The model: the current true value of every element.
    pub closed spec fn leaves(self) -> Seq<int> {
        sub_leaves(self.tree@, self.pending_updates@, 0, self.num_leaf as int - 1, 0)
    }

    pub closed spec fn leaf_count(self) -> int {
        self.num_leaf as int
    }

    pub closed spec fn slot_count(self) -> int {
        self.tree@.len() as int
    }

    /// The number of elements the tree was built over.
    pub fn len(&self) -> (n: usize)
        ensures
            n as int == self.leaf_count(),
    {
        self.num_leaf
    }

    /// Raw stored aggregate of one implicit slot (introspection): in a
    /// pending-free tree, `lemma_node_values` pins it to the maximum of the
    /// model over the slot's segment.
    pub fn node_value(&self, i: usize) -> (r: u32)
        requires
            i < self.slot_count(),
        ensures
            r == self.spec_node_value(i as int),
    {
        self.tree[i]
    }

    pub closed spec fn spec_node_value(self, i: int) -> u32 {
        self.tree@[i]
    }

    /// Raw pending slot of one implicit node (introspection).
    pub fn pending_at(&self, i: usize) -> (r: Option<u32>)
        requires
            self.wf(),
            i < self.slot_count(),
        ensures
            r == self.spec_pending_at(i as int),
    {
        self.pending_updates[i]
    }

    pub closed spec fn spec_pending_at(self, i: int) -> Option<u32> {
        self.pending_updates@[i]
    }

    pub fn build(a: &[u32]) -> (st: MaxSegmentTree)
        requires
            1 <= a@.len(),
            a@.len() <= 0x4000_0000,
        ensures
            st.wf(),
            st.leaf_count() == a@.len(),
            st.leaves() == a@.map_values(|x: u32| x as int),
            st.pending_free(),
    {
        let n = a.len();
        let mut implicit_tree: Vec<u32> = filled_u32(2 * n - 1, u32::MAX);
        Self::build_rec(a, &mut implicit_tree, Range::new(0, n - 1), 0);
        let pending = filled_pending(2 * n - 1);
        let segment_tree = Self {
            tree: implicit_tree,
            pending_updates: pending,
            num_leaf: n,
        };
        proof {
            assert(pending@ =~= no_pending(2 * n - 1));
            assert(segment_tree.leaves() =~= a@.subrange(0, n as int).map_values(|x: u32| x as int));
            assert(a@.subrange(0, n as int) =~= a@);
        }
        segment_tree
    }

    fn build_rec(a: &[u32], tree: &mut Vec<u32>, node_segment: Range, index: usize)
        requires
            node_segment.start <= node_segment.end,
            node_segment.end < a@.len(),
            index + 2 * (node_segment.end - node_segment.start) < old(tree)@.len(),
        ensures
            final(tree)@.len() == old(tree)@.len(),
            forall|k: int|
                0 <= k < old(tree)@.len() && !(index <= k <= index + 2 * (node_segment.end
                    - node_segment.start)) ==> final(tree)@[k] == old(tree)@[k],
            sub_wf(
                final(tree)@,
                no_pending(final(tree)@.len() as int),
                node_segment.start as int,
                node_segment.end as int,
                index as int,
            ),
            sub_leaves(
                final(tree)@,
                no_pending(final(tree)@.len() as int),
                node_segment.start as int,
                node_segment.end as int,
                index as int,
            ) == a@.subrange(node_segment.start as int, node_segment.end as int + 1).map_values(
                |x: u32| x as int,
            ),
        decreases node_segment.end - node_segment.start,
    {
        let ghost pn = no_pending(old(tree)@.len() as int);
        let capacity = tree.len();
        let elems = a.len();
        let s = node_segment.start;
        let e = node_segment.end;
        assert(e < elems && index + 2 * (e - s) < capacity);
        if node_segment.is_single_point() {
            tree.set(index, a[s]);
            proof {
                assert(sub_leaves(tree@, pn, s as int, e as int, index as int) =~= a@.subrange(
                    s as int,
                    e as int + 1,
                ).map_values(|x: u32| x as int));
            }
            return ;
        }
        let middle = node_segment.middle();
        let left_child_index = index + 1;
        let right_child_index = index + 2 * (middle - s + 1);
        Self::build_rec(a, tree, Range::new(s, middle), left_child_index);
        let ghost t_a = tree@;
        Self::build_rec(a, tree, Range::new(middle + 1, e), right_child_index);
        let ghost t_mid = tree@;
        let lv = tree[left_child_index];
        let rv = tree[right_child_index];
        let best = if lv >= rv {
            lv
        } else {
            rv
        };
        tree.set(index, best);
        proof {
            let si = s as int;
            let ei = e as int;
            let m = middle as int;
            let li = left_child_index as int;
            let ri = right_child_index as int;
            // The left subtree survived the right-hand recursion and the
            // write at `index`, which both lie outside its slots.
            lemma_frame(t_a, pn, t_mid, pn, si, m, li);
            lemma_frame(t_mid, pn, tree@, pn, si, m, li);
            lemma_frame(t_mid, pn, tree@, pn, m + 1, ei, ri);
            lemma_val_is_max(tree@, pn, si, m, li);
            lemma_val_is_max(tree@, pn, m + 1, ei, ri);
            assert(sub_wf(tree@, pn, si, ei, index as int));
            let bl = sub_leaves(tree@, pn, si, m, li);
            let br = sub_leaves(tree@, pn, m + 1, ei, ri);
            assert(sub_leaves(tree@, pn, si, ei, index as int) == bl + br);
            assert(bl + br =~= a@.subrange(si, ei + 1).map_values(|x: u32| x as int)) by {
                assert(bl == a@.subrange(si, m + 1).map_values(|x: u32| x as int));
                assert(br == a@.subrange(m + 1, ei + 1).map_values(|x: u32| x as int));
            }
        }
    }
    /// No node holds a deferred update: the state right after `build`.
    pub closed spec fn pending_free(self) -> bool {
        forall|k: int|
            0 <= k < self.pending_updates@.len() ==> #[trigger] self.pending_updates@[k] is None
    }

    /// In a pending-free tree the slot `q` read by `node_value` stores
    /// exactly the maximum of the model over the segment `seg_of` assigns
    /// to that slot.
    pub proof fn lemma_node_values(self, q: int)
        requires
            self.wf(),
            self.pending_free(),
            0 <= q < self.slot_count(),
        ensures
            seg_of(0, self.leaf_count() - 1, 0, q) matches Some(seg) && 0 <= seg.0 <= seg.1
                < self.leaf_count() && self.spec_node_value(q) as int == seq_max(
                self.leaves().subrange(seg.0, seg.1 + 1),
            ),
    {
        lemma_fresh_slots(self.tree@, self.pending_updates@, 0, self.num_leaf as int - 1, 0, q);
    }

    /// Model facts every well-formed tree satisfies: one model entry per
    /// element, each within the `u32` range.
    pub proof fn lemma_model(self)
        requires
            self.wf(),
        ensures
            self.leaves().len() == self.leaf_count(),
            self.leaf_count() >= 1,
            self.slot_count() == 2 * self.leaf_count() - 1,
            forall|k: int| 0 <= k < self.leaf_count() ==> 0 <= #[trigger] self.leaves()[k] <= u32::MAX,
    {
        lemma_val_is_max(self.tree@, self.pending_updates@, 0, self.num_leaf as int - 1, 0);
    }

    fn merge_min(a: Option<u32>, val: u32) -> (r: Option<u32>)
        ensures
            r == pend_join(a, val),
    {
        match a {
            Some(w) => Some(if w <= val {
                w
            } else {
                val
            }),
            None => Some(val),
        }
    }

    /// Merge `to_update` into this node's stored aggregate and, for internal
    /// nodes, push it onto both children's pending slots.
    fn update_node_and_propagate(&mut self, node_segment: Range, index: usize, to_update: u32)
        requires
            old(self).pending_updates@.len() == old(self).tree@.len(),
            node_segment.start <= node_segment.end,
            index + 2 * (node_segment.end - node_segment.start) < old(self).tree@.len(),
        ensures
            final(self).num_leaf == old(self).num_leaf,
            final(self).tree@ == old(self).tree@.update(
                index as int,
                if old(self).tree@[index as int] <= to_update {
                    old(self).tree@[index as int]
                } else {
                    to_update
                },
            ),
            final(self).pending_updates@ == if node_segment.start < node_segment.end {
                old(self).pending_updates@.update(
                    index as int + 1,
                    pend_join(old(self).pending_updates@[index as int + 1], to_update),
                ).update(
                    index as int + 2 * (mid(node_segment.start as int, node_segment.end as int)
                        - node_segment.start as int + 1),
                    pend_join(
                        old(self).pending_updates@[index as int + 2 * (mid(
                            node_segment.start as int,
                            node_segment.end as int,
                        ) - node_segment.start as int + 1)],
                        to_update,
                    ),
                )
            } else {
                old(self).pending_updates@
            },
    {
        let total = self.tree.len();
        assert(index + 2 * (node_segment.end - node_segment.start) < total);
        let cur = self.tree[index];
        let merged = if cur <= to_update {
            cur
        } else {
            to_update
        };
        self.tree.set(index, merged);
        if !node_segment.is_single_point() {
            // propagate lazily: the children do not need the update yet
            let (left_child_index, right_child_index) = left_right_child_index(
                node_segment,
                index,
            );
            let pl = self.pending_updates[left_child_index];
            self.pending_updates.set(left_child_index, Self::merge_min(pl, to_update));
            let pr = self.pending_updates[right_child_index];
            self.pending_updates.set(right_child_index, Self::merge_min(pr, to_update));
        }
    }

    /// Flush this node's pending update, if any: apply it to the stored
    /// aggregate, push it to the children, clear the slot. The true element
    /// values are unchanged.
    fn handle_pending_updates(&mut self, node_segment: Range, index: usize)
        requires
            old(self).pending_updates@.len() == old(self).tree@.len(),
            node_segment.start <= node_segment.end,
            index + 2 * (node_segment.end - node_segment.start) < old(self).tree@.len(),
            sub_wf(
                old(self).tree@,
                old(self).pending_updates@,
                node_segment.start as int,
                node_segment.end as int,
                index as int,
            ),
        ensures
            final(self).num_leaf == old(self).num_leaf,
            final(self).tree@.len() == old(self).tree@.len(),
            final(self).pending_updates@.len() == old(self).pending_updates@.len(),
            forall|k: int|
                0 <= k < old(self).tree@.len() && !(index <= k <= index + 2 * (node_segment.end
                    - node_segment.start)) ==> final(self).tree@[k] == old(self).tree@[k]
                    && final(self).pending_updates@[k] == old(self).pending_updates@[k],
            final(self).pending_updates@[index as int] is None,
            sub_wf(
                final(self).tree@,
                final(self).pending_updates@,
                node_segment.start as int,
                node_segment.end as int,
                index as int,
            ),
            sub_leaves(
                final(self).tree@,
                final(self).pending_updates@,
                node_segment.start as int,
                node_segment.end as int,
                index as int,
            ) == sub_leaves(
                old(self).tree@,
                old(self).pending_updates@,
                node_segment.start as int,
                node_segment.end as int,
                index as int,
            ),
            final(self).tree@[index as int] as int == sub_val(
                old(self).tree@,
                old(self).pending_updates@,
                node_segment.start as int,
                node_segment.end as int,
                index as int,
            ),
    {
        let ghost s = node_segment.start as int;
        let ghost e = node_segment.end as int;
        let ghost ix = index as int;
        let p_idx = self.pending_updates[index];
        if let Some(pending_update) = p_idx {
            let ghost t0 = self.tree@;
            let ghost p0 = self.pending_updates@;
            self.update_node_and_propagate(node_segment, index, pending_update);
            self.pending_updates.set(index, None);
            proof {
                let pa = p0.update(ix, None);
                lemma_split_pending(t0, p0, s, e, ix);
                assert(sub_wf(t0, pa, s, e, ix));
                let p2 = if s < e {
                    pa.update(ix + 1, pend_join(pa[ix + 1], pending_update)).update(
                        ix + 2 * (mid(s, e) - s + 1),
                        pend_join(pa[ix + 2 * (mid(s, e) - s + 1)], pending_update),
                    )
                } else {
                    pa
                };
                assert(self.pending_updates@ =~= p2);
                lemma_apply_update(
                    t0,
                    pa,
                    self.tree@,
                    p2,
                    s,
                    e,
                    ix,
                    pending_update,
                );
                assert(sub_leaves(self.tree@, self.pending_updates@, s, e, ix) == pend_apply(
                    Some(pending_update),
                    sub_leaves(t0, pa, s, e, ix),
                ));
            }
        } else {
            proof {
                assert(final(self).tree@ =~= old(self).tree@);
            }
        }
    }

    pub fn query(&mut self, i: usize, j: usize) -> (res: u32)
        requires
            old(self).wf(),
            i > j || j < old(self).leaf_count(),
        ensures
            final(self).wf(),
            final(self).leaf_count() == old(self).leaf_count(),
            final(self).leaves() == old(self).leaves(),
            i > j ==> res == 0,
            i <= j ==> res as int == seq_max(
                old(self).leaves().subrange(i as int, j as int + 1),
            ),
    {
        if i > j {
            return u32::MIN;
        }
        let n = self.num_leaf;
        let res = self.query_rec(Range::new(i, j), Range::new(0, n - 1), 0);
        proof {
            if i <= j {
                assert(old(self).leaves().subrange(i as int, j as int + 1) =~= old(
                    self,
                ).leaves().subrange(
                    max2(i as int, 0),
                    min2(j as int, self.num_leaf as int - 1) + 1,
                ));
            }
        }
        res
    }

    fn query_rec(&mut self, query_range: Range, node_segment: Range, index: usize) -> (res: u32)
        requires
            old(self).pending_updates@.len() == old(self).tree@.len(),
            query_range.start <= query_range.end,
            node_segment.start <= node_segment.end,
            index + 2 * (node_segment.end - node_segment.start) < old(self).tree@.len(),
            sub_wf(
                old(self).tree@,
                old(self).pending_updates@,
                node_segment.start as int,
                node_segment.end as int,
                index as int,
            ),
        ensures
            final(self).num_leaf == old(self).num_leaf,
            final(self).tree@.len() == old(self).tree@.len(),
            final(self).pending_updates@.len() == old(self).pending_updates@.len(),
            forall|k: int|
                0 <= k < old(self).tree@.len() && !(index <= k <= index + 2 * (node_segment.end
                    - node_segment.start)) ==> final(self).tree@[k] == old(self).tree@[k]
                    && final(self).pending_updates@[k] == old(self).pending_updates@[k],
            sub_wf(
                final(self).tree@,
                final(self).pending_updates@,
                node_segment.start as int,
                node_segment.end as int,
                index as int,
            ),
            sub_leaves(
                final(self).tree@,
                final(self).pending_updates@,
                node_segment.start as int,
                node_segment.end as int,
                index as int,
            ) == sub_leaves(
                old(self).tree@,
                old(self).pending_updates@,
                node_segment.start as int,
                node_segment.end as int,
                index as int,
            ),
            query_range.end < node_segment.start || node_segment.end < query_range.start ==> res
                == 0,
            !(query_range.end < node_segment.start || node_segment.end < query_range.start)
                ==> res as int == seq_max(
                sub_leaves(
                    old(self).tree@,
                    old(self).pending_updates@,
                    node_segment.start as int,
                    node_segment.end as int,
                    index as int,
                ).subrange(
                    max2(query_range.start as int, node_segment.start as int)
                        - node_segment.start as int,
                    min2(query_range.end as int, node_segment.end as int)
                        - node_segment.start as int + 1,
                ),
            ),
        decreases node_segment.end - node_segment.start,
    {
        let ghost s = node_segment.start as int;
        let ghost e = node_segment.end as int;
        let ghost ix = index as int;
        let ghost qs = query_range.start as int;
        let ghost qe = query_range.end as int;
        let total = self.tree.len();
        assert(index + 2 * (node_segment.end - node_segment.start) < total);
        self.handle_pending_updates(node_segment, index);
        let ghost t1 = self.tree@;
        let ghost p1 = self.pending_updates@;
        let ghost leaves = sub_leaves(t1, p1, s, e, ix);
        proof {
            lemma_val_is_max(t1, p1, s, e, ix);
        }
        if query_range.no_overlap(node_segment) {
            return u32::MIN;
        }
        if query_range.total_overlap(node_segment) {
            proof {
                assert(leaves.subrange(max2(qs, s) - s, min2(qe, e) - s + 1) =~= leaves);
            }
            return self.tree[index];
        }
        // partial overlap
        let (left_child_index, right_child_index) = left_right_child_index(node_segment, index);
        let middle = node_segment.middle();
        let ghost m = middle as int;
        let ghost li = left_child_index as int;
        let ghost ri = right_child_index as int;
        let ghost left_leaves = sub_leaves(t1, p1, s, m, li);
        let ghost right_leaves = sub_leaves(t1, p1, m + 1, e, ri);
        proof {
            lemma_val_is_max(t1, p1, s, m, li);
            lemma_val_is_max(t1, p1, m + 1, e, ri);
            assert(leaves == left_leaves + right_leaves);
        }
        let left_value = self.query_rec(query_range, Range::new(node_segment.start, middle), left_child_index);
        let ghost t2 = self.tree@;
        let ghost p2 = self.pending_updates@;
        proof {
            lemma_frame(t1, p1, t2, p2, m + 1, e, ri);
        }
        let right_value = self.query_rec(
            query_range,
            Range::new(middle + 1, node_segment.end),
            right_child_index,
        );
        let ghost t3 = self.tree@;
        let ghost p3 = self.pending_updates@;
        let res = if left_value >= right_value {
            left_value
        } else {
            right_value
        };
        proof {
            // the right-hand recursion left the finished left subtree alone
            lemma_frame(t2, p2, t3, p3, s, m, li);
            assert(sub_leaves(t3, p3, s, m, li) == left_leaves);
            assert(sub_leaves(t3, p3, m + 1, e, ri) == right_leaves);
            lemma_val_is_max(t3, p3, s, m, li);
            lemma_val_is_max(t3, p3, m + 1, e, ri);
            assert(sub_wf(t3, p3, s, e, ix)) by {
                assert(t3[ix] == t1[ix] && p3[ix] == p1[ix]);
            }
            assert(sub_leaves(t3, p3, s, e, ix) == leaves);
            let lo = max2(qs, s);
            let hi = min2(qe, e);
            if qe < s || e < qs {
                assert(false);
            } else if qe <= m && qs <= m {
                // only the left child overlaps
                assert(right_value == 0);
                assert(leaves.subrange(lo - s, hi - s + 1) =~= left_leaves.subrange(
                    max2(qs, s) - s,
                    min2(qe, m) - s + 1,
                ));
                lemma_seq_max_in(left_leaves.subrange(max2(qs, s) - s, min2(qe, m) - s + 1));
                lemma_seq_max_in(left_leaves);
            } else if qs > m {
                // only the right child overlaps
                assert(left_value == 0);
                assert(leaves.subrange(lo - s, hi - s + 1) =~= right_leaves.subrange(
                    max2(qs, m + 1) - (m + 1),
                    min2(qe, e) - (m + 1) + 1,
                ));
                lemma_seq_max_in(right_leaves.subrange(max2(qs, m + 1) - (m + 1), min2(qe, e) - (m + 1) + 1));
                lemma_seq_max_in(right_leaves);
            } else {
                // both children overlap
                let a = left_leaves.subrange(max2(qs, s) - s, m - s + 1);
                let b = right_leaves.subrange(0, min2(qe, e) - (m + 1) + 1);
                assert(leaves.subrange(lo - s, hi - s + 1) =~= a + b);
                lemma_seq_max_concat(a, b);
            }
        }
        res
    }

    pub fn range_update(&mut self, i: usize, j: usize, val: u32)
        requires
            old(self).wf(),
            i <= j,
            j < old(self).leaf_count(),
        ensures
            final(self).wf(),
            final(self).leaf_count() == old(self).leaf_count(),
            final(self).leaves().len() == old(self).leaves().len(),
            forall|k: int|
                0 <= k < old(self).leaf_count() ==> #[trigger] final(self).leaves()[k] == (
                if i <= k <= j {
                    min2(old(self).leaves()[k], val as int)
                } else {
                    old(self).leaves()[k]
                }),
    {
        let n = self.num_leaf;
        proof {
            lemma_val_is_max(self.tree@, self.pending_updates@, 0, n as int - 1, 0);
        }
        self.range_update_rec(Range::new(i, j), Range::new(0, n - 1), val, 0);
        proof {
            lemma_val_is_max(self.tree@, self.pending_updates@, 0, n as int - 1, 0);
        }
    }

    fn range_update_rec(
        &mut self,
        query_range: Range,
        node_segment: Range,
        val: u32,
        nav_index: usize,
    )
        requires
            old(self).pending_updates@.len() == old(self).tree@.len(),
            query_range.start <= query_range.end,
            node_segment.start <= node_segment.end,
            nav_index + 2 * (node_segment.end - node_segment.start) < old(self).tree@.len(),
            sub_wf(
                old(self).tree@,
                old(self).pending_updates@,
                node_segment.start as int,
                node_segment.end as int,
                nav_index as int,
            ),
        ensures
            final(self).num_leaf == old(self).num_leaf,
            final(self).tree@.len() == old(self).tree@.len(),
            final(self).pending_updates@.len() == old(self).pending_updates@.len(),
            forall|k: int|
                0 <= k < old(self).tree@.len() && !(nav_index <= k <= nav_index + 2 * (
                node_segment.end - node_segment.start)) ==> final(self).tree@[k] == old(
                    self,
                ).tree@[k] && final(self).pending_updates@[k] == old(self).pending_updates@[k],
            final(self).pending_updates@[nav_index as int] is None,
            sub_wf(
                final(self).tree@,
                final(self).pending_updates@,
                node_segment.start as int,
                node_segment.end as int,
                nav_index as int,
            ),
            sub_leaves(
                final(self).tree@,
                final(self).pending_updates@,
                node_segment.start as int,
                node_segment.end as int,
                nav_index as int,
            ).len() == node_segment.end - node_segment.start + 1,
            forall|k: int|
                0 <= k <= node_segment.end - node_segment.start ==> #[trigger] sub_leaves(
                    final(self).tree@,
                    final(self).pending_updates@,
                    node_segment.start as int,
                    node_segment.end as int,
                    nav_index as int,
                )[k] == (if query_range.start <= node_segment.start + k <= query_range.end {
                    min2(
                        sub_leaves(
                            old(self).tree@,
                            old(self).pending_updates@,
                            node_segment.start as int,
                            node_segment.end as int,
                            nav_index as int,
                        )[k],
                        val as int,
                    )
                } else {
                    sub_leaves(
                        old(self).tree@,
                        old(self).pending_updates@,
                        node_segment.start as int,
                        node_segment.end as int,
                        nav_index as int,
                    )[k]
                }),
        decreases node_segment.end - node_segment.start,
    {
        let ghost s = node_segment.start as int;
        let ghost e = node_segment.end as int;
        let ghost ix = nav_index as int;
        let ghost qs = query_range.start as int;
        let ghost qe = query_range.end as int;
        let total = self.tree.len();
        assert(nav_index + 2 * (node_segment.end - node_segment.start) < total);
        self.handle_pending_updates(node_segment, nav_index);
        let ghost t1 = self.tree@;
        let ghost p1 = self.pending_updates@;
        let ghost leaves = sub_leaves(t1, p1, s, e, ix);
        proof {
            lemma_val_is_max(t1, p1, s, e, ix);
        }
        if node_segment.no_overlap(query_range) {
            return ;
        }
        if query_range.total_overlap(node_segment) {
            // total overlap: apply here, defer the subtree
            let ghost tb = self.tree@;
            let ghost pb = self.pending_updates@;
            self.update_node_and_propagate(node_segment, nav_index, val);
            proof {
                let p2 = if s < e {
                    pb.update(ix + 1, pend_join(pb[ix + 1], val)).update(
                        ix + 2 * (mid(s, e) - s + 1),
                        pend_join(pb[ix + 2 * (mid(s, e) - s + 1)], val),
                    )
                } else {
                    pb
                };
                assert(self.pending_updates@ =~= p2);
                lemma_apply_update(tb, pb, self.tree@, p2, s, e, ix, val);
            }
            return ;
        }
        // partial overlap: descend into both children
        let (left_child_index, right_child_index) = left_right_child_index(node_segment, nav_index);
        let middle = node_segment.middle();
        let ghost m = middle as int;
        let ghost li = left_child_index as int;
        let ghost ri = right_child_index as int;
        let ghost left_leaves = sub_leaves(t1, p1, s, m, li);
        let ghost right_leaves = sub_leaves(t1, p1, m + 1, e, ri);
        proof {
            lemma_val_is_max(t1, p1, s, m, li);
            lemma_val_is_max(t1, p1, m + 1, e, ri);
            assert(leaves == left_leaves + right_leaves);
        }
        self.range_update_rec(query_range, Range::new(node_segment.start, middle), val, left_child_index);
        let ghost t2 = self.tree@;
        let ghost p2 = self.pending_updates@;
        proof {
            lemma_frame(t1, p1, t2, p2, m + 1, e, ri);
        }
        self.range_update_rec(
            query_range,
            Range::new(middle + 1, node_segment.end),
            val,
            right_child_index,
        );
        let ghost t3 = self.tree@;
        let ghost p3 = self.pending_updates@;
        proof {
            lemma_frame(t2, p2, t3, p3, s, m, li);
        }
        // the children are up to date, so recompute from their stored values
        let lv = self.tree[left_child_index];
        let rv = self.tree[right_child_index];
        self.tree.set(nav_index, if lv >= rv {
            lv
        } else {
            rv
        });
        proof {
            let t4 = self.tree@;
            let p4 = self.pending_updates@;
            lemma_frame(t3, p3, t4, p4, s, m, li);
            lemma_frame(t3, p3, t4, p4, m + 1, e, ri);
            lemma_val_is_max(t4, p4, s, m, li);
            lemma_val_is_max(t4, p4, m + 1, e, ri);
            assert(sub_wf(t4, p4, s, e, ix));
            let ll4 = sub_leaves(t4, p4, s, m, li);
            let rl4 = sub_leaves(t4, p4, m + 1, e, ri);
            let fl = sub_leaves(t4, p4, s, e, ix);
            assert(p4[ix] is None);
            assert(fl == ll4 + rl4);
            assert(ll4.len() == m - s + 1 && rl4.len() == e - m);
            assert forall|k: int| 0 <= k <= e - s implies #[trigger] fl[k] == (if qs <= s + k <= qe {
                min2(leaves[k], val as int)
            } else {
                leaves[k]
            }) by {
                if k <= m - s {
                    assert(fl[k] == ll4[k]);
                    assert(leaves[k] == left_leaves[k]);
                } else {
                    assert(fl[k] == rl4[k - (m - s + 1)]);
                    assert(leaves[k] == right_leaves[k - (m - s + 1)]);
                    assert(m + 1 + (k - (m - s + 1)) == s + k);
                }
            }
        }
    }
}

/// A wrapper around the segment tree that exposes the problem's interface
/// (range min-assignment update and range max query) while hiding the
/// underlying implementation.
pub struct MinMaxArray {
    st: MaxSegmentTree,
}

impl MinMaxArray {
    pub closed spec fn wf(self) -> bool {
        self.st.wf()
    }

    /// The model: the current true value of every element.
    pub closed spec fn elems(self) -> Seq<int> {
        self.st.leaves()
    }

    pub closed spec fn elem_count(self) -> int {
        self.st.leaf_count()
    }

    pub fn build(a: &[u32]) -> (r: MinMaxArray)
        requires
            1 <= a@.len(),
            a@.len() <= 0x4000_0000,
        ensures
            r.wf(),
            r.elem_count() == a@.len(),
            r.elems() == a@.map_values(|x: u32| x as int),
    {
        Self { st: MaxSegmentTree::build(a) }
    }

    /// Maximum of the elements in `[i, j]`; `0` for an inverted range.
    pub fn max(&mut self, i: usize, j: usize) -> (res: u32)
        requires
            old(self).wf(),
            i > j || j < old(self).elem_count(),
        ensures
            final(self).wf(),
            final(self).elems() == old(self).elems(),
            final(self).elem_count() == old(self).elem_count(),
            i > j ==> res == 0,
            i <= j ==> res as int == seq_max(old(self).elems().subrange(i as int, j as int + 1)),
    {
        self.st.query(i, j)
    }

    /// Replace every element `x` of `[i, j]` by `min(x, t)`.
    pub fn update(&mut self, i: usize, j: usize, t: u32)
        requires
            old(self).wf(),
            i <= j,
            j < old(self).elem_count(),
        ensures
            final(self).wf(),
            final(self).elem_count() == old(self).elem_count(),
            final(self).elems().len() == old(self).elems().len(),
            forall|k: int|
                0 <= k < old(self).elem_count() ==> #[trigger] final(self).elems()[k] == (
                if i <= k <= j {
                    min2(old(self).elems()[k], t as int)
                } else {
                    old(self).elems()[k]
                }),
    {
        self.st.range_update(i, j, t);
    }
}

/// A vector of `n` copies of `x`.
fn filled_u32(n: usize, x: u32) -> (v: Vec<u32>)
    ensures
        v@ == Seq::new(n as nat, |i: int| x),
{
    let mut v: Vec<u32> = Vec::new();
    let mut i: usize = 0;
    while i < n
        invariant
            i <= n,
            v@ =~= Seq::new(i as nat, |k: int| x),
        decreases n - i,
    {
        v.push(x);
        i = i + 1;
    }
    proof {
        assert(v@ =~= Seq::new(n as nat, |i: int| x));
    }
    v
}

/// A vector of `n` empty pending slots.
fn filled_pending(n: usize) -> (v: Vec<Option<u32>>)
    ensures
        v@ == Seq::new(n as nat, |i: int| None::<u32>),
{
    let mut v: Vec<Option<u32>> = Vec::new();
    let mut i: usize = 0;
    while i < n
        invariant
            i <= n,
            v@ =~= Seq::new(i as nat, |k: int| None::<u32>),
        decreases n - i,
    {
        v.push(None);
        i = i + 1;
    }
    proof {
        assert(v@ =~= Seq::new(n as nat, |i: int| None::<u32>));
    }
    v
}

} // verus!
