use vstd::prelude::*;

verus! {

// ===========================================================================
// The merge operation
//
// The tree is generic over an associative, commutative merge operation with
// a neutral element, chosen at construction. The operation is an explicit
// tag rather than a bare function value, so that the lazy-update policy
// (replicate-by-size) can be proved sound for each operation.
// ===========================================================================

#[derive(Debug, Clone, Copy, PartialEq, Eq, Structural)]
pub enum MergeOp {
    Sum,
    Min,
    Max,
}

pub open spec fn in_i32(x: int) -> bool {
    i32::MIN <= x <= i32::MAX
}

/// The mathematical merge function of an operation.
pub open spec fn mop(m: MergeOp, a: int, b: int) -> int {
    match m {
        MergeOp::Sum => a + b,
        MergeOp::Min => if a <= b {
            a
        } else {
            b
        },
        MergeOp::Max => if a >= b {
            a
        } else {
            b
        },
    }
}

/// The algebraic neutral element of an operation, over `i32` values.
pub open spec fn neutral_of(m: MergeOp) -> int {
    match m {
        MergeOp::Sum => 0,
        MergeOp::Min => i32::MAX as int,
        MergeOp::Max => i32::MIN as int,
    }
}

impl MergeOp {
    /// Executable merge. The caller owes that the mathematical result is
    /// representable; min and max always are.
    pub fn apply(&self, a: i32, b: i32) -> (r: i32)
        requires
            in_i32(mop(*self, a as int, b as int)),
        ensures
            r as int == mop(*self, a as int, b as int),
    {
        match self {
            MergeOp::Sum => a + b,
            MergeOp::Min => if a <= b {
                a
            } else {
                b
            },
            MergeOp::Max => if a >= b {
                a
            } else {
                b
            },
        }
    }
}

/// Merge of a non-empty sequence of values, left to right.
pub open spec fn fold_vals(m: MergeOp, s: Seq<int>) -> int
    recommends
        s.len() >= 1,
    decreases s.len(),
{
    if s.len() <= 1 {
        s[0]
    } else {
        mop(m, fold_vals(m, s.drop_last()), s.last())
    }
}

/// `v` merged with itself `k` times (`rep(v, 1) == v`): the element-wise
/// update `v`, replicated over a segment of `k` elements.
pub open spec fn rep_val(m: MergeOp, v: int, k: int) -> int
    recommends
        k >= 1,
    decreases k,
{
    if k <= 1 {
        v
    } else {
        mop(m, rep_val(m, v, k - 1), v)
    }
}

/// Merge of a sequence starting from the neutral element, the usual fold.
pub open spec fn fold_neutral(m: MergeOp, s: Seq<int>) -> int
    decreases s.len(),
{
    if s.len() == 0 {
        neutral_of(m)
    } else {
        mop(m, fold_neutral(m, s.drop_last()), s.last())
    }
}

/// Every subrange of `s` merges to a representable value. For `Min` and
/// `Max` this always holds; for `Sum` it bounds the partial sums.
pub open spec fn agg_fits(m: MergeOp, s: Seq<int>) -> bool {
    forall|i: int, j: int|
        0 <= i <= j < s.len() ==> in_i32(#[trigger] fold_vals(m, s.subrange(i, j + 1)))
}

pub open spec fn ints(s: Seq<i32>) -> Seq<int> {
    s.map_values(|x: i32| x as int)
}

// ===========================================================================
// Laws of the merge operations
// ===========================================================================

/// The merge operations are commutative.
pub proof fn lemma_mop_comm(m: MergeOp, a: int, b: int)
    ensures
        mop(m, a, b) == mop(m, b, a),
{
}

/// The merge operations are associative.
pub proof fn lemma_mop_assoc(m: MergeOp, a: int, b: int, c: int)
    ensures
        mop(m, mop(m, a, b), c) == mop(m, a, mop(m, b, c)),
{
}

/// Neutral-element absorption: merging any representable value with the
/// operation's neutral element, on either side, returns the value.
pub proof fn lemma_neutral_absorbs(m: MergeOp, a: int)
    requires
        in_i32(a),
    ensures
        mop(m, a, neutral_of(m)) == a,
        mop(m, neutral_of(m), a) == a,
{
}

/// The two fold forms agree on non-empty sequences of representable values:
/// merging a sequence pairwise equals folding it from the neutral element.
pub proof fn lemma_fold_neutral_agrees(m: MergeOp, s: Seq<int>)
    requires
        s.len() >= 1,
        forall|i: int| 0 <= i < s.len() ==> in_i32(#[trigger] s[i]),
    ensures
        fold_neutral(m, s) == fold_vals(m, s),
    decreases s.len(),
{
    assert(forall|i: int| 0 <= i < s.len() - 1 ==> #[trigger] s.drop_last()[i] == s[i]);
    if s.len() == 1 {
        assert(s.drop_last().len() == 0);
        lemma_neutral_absorbs(m, s[0]);
        assert(fold_neutral(m, s.drop_last()) == neutral_of(m));
        assert(fold_neutral(m, s) == mop(m, neutral_of(m), s[0]));
    } else {
        lemma_fold_neutral_agrees(m, s.drop_last());
    }
}

/// A full-range query merges the whole model: `query(0, len - 1)` equals
/// the fold of the elements from the neutral element.
pub proof fn lemma_full_range_query(m: MergeOp, s: Seq<int>)
    requires
        s.len() >= 1,
        forall|i: int| 0 <= i < s.len() ==> in_i32(#[trigger] s[i]),
    ensures
        fold_vals(m, s.subrange(0, s.len() as int)) == fold_neutral(m, s),
{
    assert(s.subrange(0, s.len() as int) =~= s);
    lemma_fold_neutral_agrees(m, s);
}

/// A single-element query returns that element.
pub proof fn lemma_single_query(m: MergeOp, s: Seq<int>, i: int)
    requires
        0 <= i < s.len(),
    ensures
        fold_vals(m, s.subrange(i, i + 1)) == s[i],
{
    assert(s.subrange(i, i + 1).len() == 1);
}

/// Reads after a deferred range update: once the model maps every element
/// of `[qs, qe]` through the update, as `range_update` ensures, a
/// single-element query anywhere inside the range — however deep under a
/// node whose work was deferred — returns the updated value.
pub proof fn lemma_deferred_update_reads(
    m: MergeOp,
    s: Seq<int>,
    s2: Seq<int>,
    qs: int,
    qe: int,
    v: i32,
    p: int,
)
    requires
        s2.len() == s.len(),
        0 <= p < s.len(),
        qs <= p <= qe,
        forall|k: int|
            0 <= k < s.len() ==> #[trigger] s2[k] == (if qs <= k <= qe {
                mop(m, s[k], v as int)
            } else {
                s[k]
            }),
    ensures
        fold_vals(m, s2.subrange(p, p + 1)) == mop(m, s[p], v as int),
{
    assert(s2.subrange(p, p + 1).len() == 1);
}

pub proof fn lemma_fold_concat(m: MergeOp, a: Seq<int>, b: Seq<int>)
    requires
        a.len() >= 1,
        b.len() >= 1,
    ensures
        fold_vals(m, a + b) == mop(m, fold_vals(m, a), fold_vals(m, b)),
    decreases b.len(),
{
    if b.len() == 1 {
        assert((a + b).drop_last() =~= a);
        assert((a + b).last() == b[0]);
    } else {
        lemma_fold_concat(m, a, b.drop_last());
        assert((a + b).drop_last() =~= a + b.drop_last());
    }
}

/// Replication splits over addition of counts.
pub proof fn lemma_rep_split(m: MergeOp, v: int, a: int, b: int)
    requires
        a >= 1,
        b >= 1,
    ensures
        rep_val(m, v, a + b) == mop(m, rep_val(m, v, a), rep_val(m, v, b)),
    decreases b,
{
    if b == 1 {
    } else {
        lemma_rep_split(m, v, a, b - 1);
        lemma_mop_assoc(m, rep_val(m, v, a), rep_val(m, v, b - 1), v);
    }
}

/// Replication of a merged update is the merge of the replications.
pub proof fn lemma_rep_join(m: MergeOp, a: int, b: int, k: int)
    requires
        k >= 1,
    ensures
        rep_val(m, mop(m, a, b), k) == mop(m, rep_val(m, a, k), rep_val(m, b, k)),
    decreases k,
{
    if k == 1 {
    } else {
        lemma_rep_join(m, a, b, k - 1);
        // shuffle ((A . B) . (a . b)) into ((A . a) . (B . b))
        let ra = rep_val(m, a, k - 1);
        let rb = rep_val(m, b, k - 1);
        lemma_mop_assoc(m, mop(m, ra, rb), a, b);
        lemma_mop_assoc(m, ra, rb, a);
        lemma_mop_comm(m, rb, a);
        lemma_mop_assoc(m, ra, a, rb);
        lemma_mop_assoc(m, mop(m, ra, a), rb, b);
    }
}

/// Applying the element-wise update `v` to every element of a segment moves
/// its merge by the replicated update: the heart of lazy propagation.
pub proof fn lemma_fold_map(m: MergeOp, s: Seq<int>, v: int)
    requires
        s.len() >= 1,
    ensures
        fold_vals(m, s.map_values(|x: int| mop(m, x, v))) == mop(
            m,
            fold_vals(m, s),
            rep_val(m, v, s.len() as int),
        ),
    decreases s.len(),
{
    let f = s.map_values(|x: int| mop(m, x, v));
    if s.len() == 1 {
        assert(f[0] == mop(m, s[0], v));
    } else {
        lemma_fold_map(m, s.drop_last(), v);
        assert(f.drop_last() =~= s.drop_last().map_values(|x: int| mop(m, x, v)));
        assert(f.last() == mop(m, s.last(), v));
        let a = fold_vals(m, s.drop_last());
        let r = rep_val(m, v, s.len() - 1);
        let c = s.last();
        // ((a . r) . (c . v)) == ((a . c) . (r . v))
        lemma_mop_assoc(m, mop(m, a, r), c, v);
        lemma_mop_assoc(m, a, r, c);
        lemma_mop_comm(m, r, c);
        lemma_mop_assoc(m, a, c, r);
        lemma_mop_assoc(m, mop(m, a, c), r, v);
        lemma_rep_split(m, v, s.len() - 1, 1);
    }
}

// ===========================================================================
// Tree model
// ===========================================================================

pub open spec fn opt_int(o: Option<i32>) -> Option<int> {
    match o {
        Some(v) => Some(v as int),
        None => None,
    }
}

/// Composition of two optional updates: `a` applies first, then `b`.
pub open spec fn oj(m: MergeOp, a: Option<int>, b: Option<int>) -> Option<int> {
    match (a, b) {
        (Some(x), Some(y)) => Some(mop(m, x, y)),
        (Some(x), None) => Some(x),
        (None, y) => y,
    }
}

pub open spec fn midp(l: int, r: int) -> int {
    (l + r) / 2
}

/// Effect of an optional pending update on the elements below it.
pub open spec fn pend_map(m: MergeOp, p: Option<i32>, s: Seq<int>) -> Seq<int> {
    match p {
        Some(v) => s.map_values(|x: int| mop(m, x, v as int)),
        None => s,
    }
}

/// The true element values covered by the node at `idx` owning `[l, r]`.
pub open spec fn leaves_of(
    m: MergeOp,
    t: Seq<i32>,
    p: Seq<Option<i32>>,
    l: int,
    r: int,
    idx: int,
) -> Seq<int>
    decreases r - l,
{
    let base = if l >= r {
        seq![t[idx] as int]
    } else {
        leaves_of(m, t, p, l, midp(l, r), idx + 1) + leaves_of(
            m,
            t,
            p,
            midp(l, r) + 1,
            r,
            idx + 2 * (midp(l, r) - l + 1),
        )
    };
    pend_map(m, p[idx], base)
}

/// The aggregate the node at `idx` stands for, its own pending included:
/// a pending update over `k` elements contributes its `k`-fold replication.
pub open spec fn val_of(
    m: MergeOp,
    t: Seq<i32>,
    p: Seq<Option<i32>>,
    l: int,
    r: int,
    idx: int,
) -> int {
    match p[idx] {
        Some(v) => mop(m, t[idx] as int, rep_val(m, v as int, r - l + 1)),
        None => t[idx] as int,
    }
}

/// Structural well-formedness: the layout fits and every internal node
/// stores the merge of its children's aggregates (their pendings included,
/// its own excluded).
pub open spec fn wf_of(
    m: MergeOp,
    t: Seq<i32>,
    p: Seq<Option<i32>>,
    l: int,
    r: int,
    idx: int,
) -> bool
    decreases r - l,
{
    &&& 0 <= l
    &&& l <= r
    &&& 0 <= idx
    &&& idx + 2 * (r - l) < t.len()
    &&& (l < r ==> {
        let m2 = midp(l, r);
        &&& wf_of(m, t, p, l, m2, idx + 1)
        &&& wf_of(m, t, p, m2 + 1, r, idx + 2 * (m2 - l + 1))
        &&& t[idx] as int == mop(
            m,
            val_of(m, t, p, l, m2, idx + 1),
            val_of(m, t, p, m2 + 1, r, idx + 2 * (m2 - l + 1)),
        )
    })
}

/// Bounds discipline for pending updates. `anc` is the composition of the
/// pending updates of the ancestors, which will eventually be pushed down
/// through this node: for the effective update of each node, its stored
/// composition, every replication a flush may compute, and the aggregate a
/// flush will store must be representable.
pub open spec fn pend_ok(
    m: MergeOp,
    t: Seq<i32>,
    p: Seq<Option<i32>>,
    l: int,
    r: int,
    idx: int,
    anc: Option<int>,
) -> bool
    decreases r - l,
{
    let eff = oj(m, opt_int(p[idx]), anc);
    &&& match eff {
        Some(v) => {
            &&& in_i32(v)
            &&& forall|k: int| 1 <= k <= r - l + 1 ==> in_i32(#[trigger] rep_val(m, v, k))
            &&& in_i32(mop(m, t[idx] as int, rep_val(m, v, r - l + 1)))
        },
        None => true,
    }
    &&& (l < r ==> {
        let m2 = midp(l, r);
        &&& pend_ok(m, t, p, l, m2, idx + 1, eff)
        &&& pend_ok(m, t, p, m2 + 1, r, idx + 2 * (m2 - l + 1), eff)
    })
}

// ===========================================================================
// Lemmas about the tree model
// ===========================================================================

/// The model of a subtree depends only on the slots the subtree owns.
pub proof fn lemma_tree_frame(
    m: MergeOp,
    t1: Seq<i32>,
    p1: Seq<Option<i32>>,
    t2: Seq<i32>,
    p2: Seq<Option<i32>>,
    l: int,
    r: int,
    idx: int,
)
    requires
        0 <= l <= r,
        0 <= idx,
        t1.len() == t2.len(),
        forall|k: int|
            idx <= k <= idx + 2 * (r - l) ==> (k < t1.len() ==> t1[k] == t2[k] && p1[k] == p2[k]),
    ensures
        idx + 2 * (r - l) < t1.len() ==> leaves_of(m, t1, p1, l, r, idx) == leaves_of(
            m,
            t2,
            p2,
            l,
            r,
            idx,
        ) && val_of(m, t1, p1, l, r, idx) == val_of(m, t2, p2, l, r, idx) && (forall|
            aa: Option<int>,
        |
            pend_ok(m, t1, p1, l, r, idx, aa) == #[trigger] pend_ok(m, t2, p2, l, r, idx, aa)),
        wf_of(m, t1, p1, l, r, idx) == wf_of(m, t2, p2, l, r, idx),
    decreases r - l,
{
    if l < r {
        let m2 = midp(l, r);
        let li = idx + 1;
        let ri = idx + 2 * (m2 - l + 1);
        lemma_tree_frame(m, t1, p1, t2, p2, l, m2, li);
        lemma_tree_frame(m, t1, p1, t2, p2, m2 + 1, r, ri);
        if idx + 2 * (r - l) < t1.len() {
            assert forall|aa: Option<int>|
                pend_ok(m, t1, p1, l, r, idx, aa) == #[trigger] pend_ok(
                    m,
                    t2,
                    p2,
                    l,
                    r,
                    idx,
                    aa,
                ) by {
                let eff = oj(m, opt_int(p1[idx]), aa);
                assert(oj(m, opt_int(p2[idx]), aa) == eff);
                assert(pend_ok(m, t1, p1, l, m2, li, eff) == pend_ok(m, t2, p2, l, m2, li, eff));
                assert(pend_ok(m, t1, p1, m2 + 1, r, ri, eff) == pend_ok(
                    m,
                    t2,
                    p2,
                    m2 + 1,
                    r,
                    ri,
                    eff,
                ));
            }
        }
    } else {
        if idx + 2 * (r - l) < t1.len() {
            assert forall|aa: Option<int>|
                pend_ok(m, t1, p1, l, r, idx, aa) == #[trigger] pend_ok(
                    m,
                    t2,
                    p2,
                    l,
                    r,
                    idx,
                    aa,
                ) by {
                assert(oj(m, opt_int(p2[idx]), aa) == oj(m, opt_int(p1[idx]), aa));
            }
        }
    }
}

/// Splitting the pending slot at the root of a subtree off into the
/// ancestor composition.
pub proof fn lemma_tree_split(
    m: MergeOp,
    t: Seq<i32>,
    p: Seq<Option<i32>>,
    l: int,
    r: int,
    idx: int,
)
    requires
        0 <= l <= r,
        0 <= idx,
        idx + 2 * (r - l) < t.len(),
        p.len() == t.len(),
    ensures
        leaves_of(m, t, p, l, r, idx) == pend_map(
            m,
            p[idx],
            leaves_of(m, t, p.update(idx, None), l, r, idx),
        ),
        wf_of(m, t, p, l, r, idx) == wf_of(m, t, p.update(idx, None), l, r, idx),
        forall|x: Option<i32>|
            wf_of(m, t, p, l, r, idx) == #[trigger] wf_of(m, t, p.update(idx, x), l, r, idx),
        forall|aa: Option<int>|
            #[trigger] pend_ok(m, t, p, l, r, idx, aa) == pend_ok(
                m,
                t,
                p.update(idx, None),
                l,
                r,
                idx,
                oj(m, opt_int(p[idx]), aa),
            ),
{
    let pn = p.update(idx, None);
    if l >= r {
        assert(leaves_of(m, t, pn, l, r, idx) == seq![t[idx] as int]);
    } else {
        let m2 = midp(l, r);
        let li = idx + 1;
        let ri = idx + 2 * (m2 - l + 1);
        lemma_tree_frame(m, t, p, t, pn, l, m2, li);
        lemma_tree_frame(m, t, p, t, pn, m2 + 1, r, ri);
        assert(leaves_of(m, t, pn, l, r, idx) == leaves_of(m, t, p, l, m2, li) + leaves_of(
            m,
            t,
            p,
            m2 + 1,
            r,
            ri,
        ));
        assert forall|x: Option<i32>|
            wf_of(m, t, p, l, r, idx) == #[trigger] wf_of(m, t, p.update(idx, x), l, r, idx) by {
            let px = p.update(idx, x);
            lemma_tree_frame(m, t, p, t, px, l, m2, li);
            lemma_tree_frame(m, t, p, t, px, m2 + 1, r, ri);
        }
        assert forall|aa: Option<int>|
            #[trigger] pend_ok(m, t, p, l, r, idx, aa) == pend_ok(
                m,
                t,
                pn,
                l,
                r,
                idx,
                oj(m, opt_int(p[idx]), aa),
            ) by {
            let effa = oj(m, opt_int(p[idx]), aa);
            assert(oj(m, opt_int(pn[idx]), effa) == effa);
            lemma_tree_frame(m, t, p, t, pn, l, m2, li);
            lemma_tree_frame(m, t, p, t, pn, m2 + 1, r, ri);
            assert(pend_ok(m, t, p, l, m2, li, effa) == pend_ok(m, t, pn, l, m2, li, effa));
            assert(pend_ok(m, t, p, m2 + 1, r, ri, effa) == pend_ok(m, t, pn, m2 + 1, r, ri, effa));
        }
    }
}

/// Under well-formedness the subtree covers exactly its segment and its
/// aggregate is the merge of its true element values.
pub proof fn lemma_val_is_fold(
    m: MergeOp,
    t: Seq<i32>,
    p: Seq<Option<i32>>,
    l: int,
    r: int,
    idx: int,
)
    requires
        wf_of(m, t, p, l, r, idx),
    ensures
        leaves_of(m, t, p, l, r, idx).len() == r - l + 1,
        fold_vals(m, leaves_of(m, t, p, l, r, idx)) == val_of(m, t, p, l, r, idx),
    decreases r - l,
{
    let leaves = leaves_of(m, t, p, l, r, idx);
    if l >= r {
        assert(leaves.len() == 1);
        match p[idx] {
            Some(v) => {
                let base = seq![t[idx] as int];
                assert(leaves[0] == mop(m, t[idx] as int, v as int));
            },
            None => {},
        }
    } else {
        let m2 = midp(l, r);
        let li = idx + 1;
        let ri = idx + 2 * (m2 - l + 1);
        lemma_val_is_fold(m, t, p, l, m2, li);
        lemma_val_is_fold(m, t, p, m2 + 1, r, ri);
        let bl = leaves_of(m, t, p, l, m2, li);
        let br = leaves_of(m, t, p, m2 + 1, r, ri);
        lemma_fold_concat(m, bl, br);
        assert(fold_vals(m, bl + br) == t[idx] as int);
        match p[idx] {
            Some(v) => {
                lemma_fold_map(m, bl + br, v as int);
            },
            None => {},
        }
    }
}

/// Flushing a node: the stored aggregate absorbs the replicated pending
/// update, the children's pending slots compose with it, the slot clears.
/// The true element values and the node's aggregate are unchanged.
pub proof fn lemma_flush(
    m: MergeOp,
    t: Seq<i32>,
    p: Seq<Option<i32>>,
    t2: Seq<i32>,
    p2: Seq<Option<i32>>,
    l: int,
    r: int,
    idx: int,
    v: i32,
    x: i32,
    jl: Option<i32>,
    jr: Option<i32>,
)
    requires
        wf_of(m, t, p, l, r, idx),
        pend_ok(m, t, p, l, r, idx, None),
        p.len() == t.len(),
        p[idx] == Some(v),
        x as int == mop(m, t[idx] as int, rep_val(m, v as int, r - l + 1)),
        l < r ==> opt_int(jl) == oj(m, opt_int(p[idx + 1]), Some(v as int)),
        l < r ==> opt_int(jr) == oj(m, opt_int(p[idx + 2 * (midp(l, r) - l + 1)]), Some(v as int)),
        t2 == t.update(idx, x),
        p2 == (if l < r {
            p.update(idx + 1, jl).update(idx + 2 * (midp(l, r) - l + 1), jr)
        } else {
            p
        }).update(idx, None::<i32>),
    ensures
        wf_of(m, t2, p2, l, r, idx),
        pend_ok(m, t2, p2, l, r, idx, None),
        leaves_of(m, t2, p2, l, r, idx) == leaves_of(m, t, p, l, r, idx),
        val_of(m, t2, p2, l, r, idx) == val_of(m, t, p, l, r, idx),
        p2[idx] is None,
{
    let vv = v as int;
    let size = r - l + 1;
    if l >= r {
        assert(leaves_of(m, t2, p2, l, r, idx) =~= leaves_of(m, t, p, l, r, idx));
    } else {
        let m2 = midp(l, r);
        let li = idx + 1;
        let ri = idx + 2 * (m2 - l + 1);
        let svl = val_of(m, t, p, l, m2, li);
        let svr = val_of(m, t, p, m2 + 1, r, ri);
        let sl = m2 - l + 1;
        let sr = r - m2;
        lemma_val_is_fold(m, t, p, l, r, idx);
        lemma_val_is_fold(m, t, p, l, m2, li);
        lemma_val_is_fold(m, t, p, m2 + 1, r, ri);

        // Left child: base unchanged, top pending composed with v.
        let pl_none = p.update(li, None::<i32>);
        let p2l_none = p2.update(li, None::<i32>);
        lemma_tree_split(m, t, p, l, m2, li);
        lemma_tree_split(m, t2, p2, l, m2, li);
        lemma_tree_frame(m, t, pl_none, t2, p2l_none, l, m2, li);
        let base_l = leaves_of(m, t, pl_none, l, m2, li);
        assert(leaves_of(m, t2, p2l_none, l, m2, li) == base_l);
        assert(wf_of(m, t2, p2, l, m2, li));
        assert(leaves_of(m, t2, p2, l, m2, li) =~= leaves_of(m, t, p, l, m2, li).map_values(
            |y: int| mop(m, y, vv),
        )) by {
            assert(leaves_of(m, t2, p2, l, m2, li) == pend_map(m, jl, base_l));
            assert(leaves_of(m, t, p, l, m2, li) == pend_map(m, p[li], base_l));
        }
        // Right child likewise.
        let pr_none = p.update(ri, None::<i32>);
        let p2r_none = p2.update(ri, None::<i32>);
        lemma_tree_split(m, t, p, m2 + 1, r, ri);
        lemma_tree_split(m, t2, p2, m2 + 1, r, ri);
        lemma_tree_frame(m, t, pr_none, t2, p2r_none, m2 + 1, r, ri);
        let base_r = leaves_of(m, t, pr_none, m2 + 1, r, ri);
        assert(leaves_of(m, t2, p2r_none, m2 + 1, r, ri) == base_r);
        assert(wf_of(m, t2, p2, m2 + 1, r, ri));
        assert(leaves_of(m, t2, p2, m2 + 1, r, ri) =~= leaves_of(m, t, p, m2 + 1, r, ri).map_values(
            |y: int| mop(m, y, vv),
        )) by {
            assert(leaves_of(m, t2, p2, m2 + 1, r, ri) == pend_map(m, jr, base_r));
            assert(leaves_of(m, t, p, m2 + 1, r, ri) == pend_map(m, p[ri], base_r));
        }

        // New child aggregates absorb the pushed update.
        assert(val_of(m, t2, p2, l, m2, li) == mop(m, svl, rep_val(m, vv, sl))) by {
            match p[li] {
                Some(q) => {
                    lemma_rep_join(m, q as int, vv, sl);
                    lemma_mop_assoc(m, t[li] as int, rep_val(m, q as int, sl), rep_val(m, vv, sl));
                },
                None => {},
            }
        }
        assert(val_of(m, t2, p2, m2 + 1, r, ri) == mop(m, svr, rep_val(m, vv, sr))) by {
            match p[ri] {
                Some(q) => {
                    lemma_rep_join(m, q as int, vv, sr);
                    lemma_mop_assoc(m, t[ri] as int, rep_val(m, q as int, sr), rep_val(m, vv, sr));
                },
                None => {},
            }
        }
        // The stored root aggregate equals the merge of the new child values.
        assert(t2[idx] as int == mop(
            m,
            val_of(m, t2, p2, l, m2, li),
            val_of(m, t2, p2, m2 + 1, r, ri),
        )) by {
            let rl = rep_val(m, vv, sl);
            let rr = rep_val(m, vv, sr);
            lemma_rep_split(m, vv, sl, sr);
            lemma_mop_assoc(m, mop(m, svl, rl), svr, rr);
            lemma_mop_assoc(m, svl, rl, svr);
            lemma_mop_comm(m, rl, svr);
            lemma_mop_assoc(m, svl, svr, rl);
            lemma_mop_assoc(m, mop(m, svl, svr), rl, rr);
        }
        assert(wf_of(m, t2, p2, l, r, idx));

        // Leaves are unchanged: the pending moved down, nothing applied twice.
        assert(leaves_of(m, t2, p2, l, r, idx) =~= leaves_of(m, t, p, l, r, idx));

        // Discharge the bounds discipline in the new state.
        assert(pend_ok(m, t2, p2, l, r, idx, None)) by {
            let effl = oj(m, opt_int(p[li]), Some(vv));
            let effr = oj(m, opt_int(p[ri]), Some(vv));
            lemma_tree_split(m, t, p, l, m2, li);
            assert(pend_ok(m, t, p, l, m2, li, Some(vv)) == pend_ok(m, t, pl_none, l, m2, li, effl));
            assert(pend_ok(m, t2, p2, l, m2, li, None) == pend_ok(
                m,
                t2,
                p2l_none,
                l,
                m2,
                li,
                opt_int(jl),
            ));
            assert(pend_ok(m, t2, p2, m2 + 1, r, ri, None) == pend_ok(
                m,
                t2,
                p2r_none,
                m2 + 1,
                r,
                ri,
                opt_int(jr),
            ));
            assert(pend_ok(m, t, p, m2 + 1, r, ri, Some(vv)) == pend_ok(
                m,
                t,
                pr_none,
                m2 + 1,
                r,
                ri,
                effr,
            ));
        }
    }
}

/// Subranges of a sequence whose subranges all merge within range again
/// have that property.
pub proof fn lemma_agg_fits_subrange(m: MergeOp, s: Seq<int>, a: int, b: int)
    requires
        agg_fits(m, s),
        0 <= a <= b <= s.len(),
    ensures
        agg_fits(m, s.subrange(a, b)),
{
    let sub = s.subrange(a, b);
    assert forall|i: int, j: int| 0 <= i <= j < sub.len() implies in_i32(
        #[trigger] fold_vals(m, sub.subrange(i, j + 1)),
    ) by {
        assert(sub.subrange(i, j + 1) =~= s.subrange(a + i, a + j + 1));
    }
}

/// Bounds discipline for recording one more range update `val` over the
/// totally-overlapped node at `idx`: the grown effective update of this node
/// and the conditions of every node below it, under the grown ancestor
/// composition, stay representable.
pub open spec fn pend_grow(
    m: MergeOp,
    t: Seq<i32>,
    p: Seq<Option<i32>>,
    l: int,
    r: int,
    idx: int,
    anc: Option<int>,
    val: i32,
) -> bool {
    let slot_grown = oj(m, opt_int(p[idx]), Some(val as int));
    let effv = oj(m, slot_grown, anc);
    &&& match slot_grown {
        Some(w0) => in_i32(w0),
        None => true,
    }
    &&& match effv {
        Some(w) => {
            &&& in_i32(w)
            &&& forall|k: int| 1 <= k <= r - l + 1 ==> in_i32(#[trigger] rep_val(m, w, k))
            &&& in_i32(mop(m, t[idx] as int, rep_val(m, w, r - l + 1)))
        },
        None => true,
    }
    &&& (l < r ==> {
        let m2 = midp(l, r);
        &&& pend_ok(m, t, p, l, m2, idx + 1, effv)
        &&& pend_ok(m, t, p, m2 + 1, r, idx + 2 * (m2 - l + 1), effv)
    })
}

/// Everything `range_update(qs, qe, val)` will compute or store while
/// descending the subtree at `idx` stays representable: the replications it
/// applies at partially-overlapped nodes, the compositions it records at
/// totally-overlapped nodes, and what later flushes of those recordings
/// will compute. `anc` is the composition of the ancestors' pending slots.
pub open spec fn update_fits(
    m: MergeOp,
    t: Seq<i32>,
    p: Seq<Option<i32>>,
    l: int,
    r: int,
    idx: int,
    anc: Option<int>,
    qs: int,
    qe: int,
    val: i32,
) -> bool
    decreases r - l,
{
    let eff = oj(m, opt_int(p[idx]), anc);
    if qe < l || r < qs {
        true
    } else if qs <= l && r <= qe {
        if l == r {
            &&& in_i32(mop(m, t[idx] as int, val as int))
            &&& match eff {
                Some(w) => in_i32(mop(m, mop(m, t[idx] as int, val as int), w)),
                None => true,
            }
        } else {
            pend_grow(m, t, p, l, r, idx, anc, val)
        }
    } else {
        let lo = if qs >= l { qs } else { l };
        let hi = if qe <= r { qe } else { r };
        let is_ = hi - lo + 1;
        let m2 = midp(l, r);
        &&& (forall|k: int| 1 <= k <= is_ ==> in_i32(#[trigger] rep_val(m, val as int, k)))
        &&& in_i32(mop(m, rep_val(m, val as int, is_), t[idx] as int))
        &&& match eff {
            Some(w) => in_i32(
                mop(
                    m,
                    mop(m, rep_val(m, val as int, is_), t[idx] as int),
                    rep_val(m, w, r - l + 1),
                ),
            ),
            None => true,
        }
        &&& update_fits(m, t, p, l, m2, idx + 1, eff, qs, qe, val)
        &&& update_fits(m, t, p, m2 + 1, r, idx + 2 * (m2 - l + 1), eff, qs, qe, val)
    }
}

/// `update_fits` depends only on the slots the subtree owns.
pub proof fn lemma_update_fits_frame(
    m: MergeOp,
    t1: Seq<i32>,
    p1: Seq<Option<i32>>,
    t2: Seq<i32>,
    p2: Seq<Option<i32>>,
    l: int,
    r: int,
    idx: int,
    anc: Option<int>,
    qs: int,
    qe: int,
    val: i32,
)
    requires
        0 <= l <= r,
        0 <= idx,
        t1.len() == t2.len(),
        idx + 2 * (r - l) < t1.len(),
        forall|k: int|
            idx <= k <= idx + 2 * (r - l) ==> (k < t1.len() ==> t1[k] == t2[k] && p1[k] == p2[k]),
    ensures
        update_fits(m, t1, p1, l, r, idx, anc, qs, qe, val) == update_fits(
            m,
            t2,
            p2,
            l,
            r,
            idx,
            anc,
            qs,
            qe,
            val,
        ),
    decreases r - l,
{
    lemma_tree_frame(m, t1, p1, t2, p2, l, r, idx);
    if l < r {
        let m2 = midp(l, r);
        let eff = oj(m, opt_int(p1[idx]), anc);
        lemma_update_fits_frame(m, t1, p1, t2, p2, l, m2, idx + 1, eff, qs, qe, val);
        lemma_update_fits_frame(
            m,
            t1,
            p1,
            t2,
            p2,
            m2 + 1,
            r,
            idx + 2 * (m2 - l + 1),
            eff,
            qs,
            qe,
            val,
        );
        lemma_tree_frame(m, t1, p1, t2, p2, l, m2, idx + 1);
        lemma_tree_frame(m, t1, p1, t2, p2, m2 + 1, r, idx + 2 * (m2 - l + 1));
    }
}

/// The segment owned by implicit slot `q` within the subtree that owns
/// `[l, r]` at slot `idx`: the left child follows its father directly, the
/// right child follows the whole left subtree.
pub open spec fn seg_of(l: int, r: int, idx: int, q: int) -> Option<(int, int)>
    decreases r - l,
{
    if q == idx {
        Some((l, r))
    } else if l >= r {
        None
    } else {
        let m2 = midp(l, r);
        let ri = idx + 2 * (m2 - l + 1);
        if q < ri {
            seg_of(l, m2, idx + 1, q)
        } else {
            seg_of(m2 + 1, r, ri, q)
        }
    }
}

/// In a pending-free subtree every slot stores exactly the merge of the
/// elements of the segment it owns.
proof fn lemma_fresh_slots(
    m: MergeOp,
    t: Seq<i32>,
    p: Seq<Option<i32>>,
    l: int,
    r: int,
    idx: int,
    q: int,
)
    requires
        wf_of(m, t, p, l, r, idx),
        p.len() == t.len(),
        forall|k: int| idx <= k <= idx + 2 * (r - l) ==> #[trigger] p[k] is None,
        idx <= q <= idx + 2 * (r - l),
    ensures
        seg_of(l, r, idx, q) matches Some(seg) && l <= seg.0 <= seg.1 <= r && t[q] as int
            == fold_vals(
            m,
            leaves_of(m, t, p, l, r, idx).subrange(seg.0 - l, seg.1 - l + 1),
        ),
    decreases r - l,
{
    let leaves = leaves_of(m, t, p, l, r, idx);
    lemma_val_is_fold(m, t, p, l, r, idx);
    if q == idx {
        assert(leaves.subrange(0, r - l + 1) =~= leaves);
    } else {
        let m2 = midp(l, r);
        let li = idx + 1;
        let ri = idx + 2 * (m2 - l + 1);
        lemma_val_is_fold(m, t, p, l, m2, li);
        lemma_val_is_fold(m, t, p, m2 + 1, r, ri);
        let ll = leaves_of(m, t, p, l, m2, li);
        let rl = leaves_of(m, t, p, m2 + 1, r, ri);
        assert(leaves == ll + rl);
        if q < ri {
            lemma_fresh_slots(m, t, p, l, m2, li, q);
            let seg = seg_of(l, m2, li, q)->0;
            assert(leaves.subrange(seg.0 - l, seg.1 - l + 1) =~= ll.subrange(
                seg.0 - l,
                seg.1 - l + 1,
            ));
        } else {
            lemma_fresh_slots(m, t, p, m2 + 1, r, ri, q);
            let seg = seg_of(m2 + 1, r, ri, q)->0;
            assert(leaves.subrange(seg.0 - l, seg.1 - l + 1) =~= rl.subrange(
                seg.0 - (m2 + 1),
                seg.1 - (m2 + 1) + 1,
            ));
        }
    }
}

pub open spec fn abs_of(v: int) -> int {
    if v >= 0 {
        v
    } else {
        -v
    }
}

/// For the idempotent operations, replication changes nothing.
pub proof fn lemma_rep_idem(m: MergeOp, v: int, k: int)
    requires
        !(m is Sum),
        k >= 1,
    ensures
        rep_val(m, v, k) == v,
    decreases k,
{
    if k > 1 {
        lemma_rep_idem(m, v, k - 1);
    }
}

/// For the additive operation, replication multiplies.
pub proof fn lemma_rep_sum(v: int, k: int)
    requires
        k >= 1,
    ensures
        rep_val(MergeOp::Sum, v, k) == k * v,
    decreases k,
{
    if k > 1 {
        lemma_rep_sum(v, k - 1);
        assert(k * v == (k - 1) * v + v) by (nonlinear_arith);
    } else {
        assert(1 * v == v) by (nonlinear_arith);
    }
}

/// Min- and max-trees satisfy the pending bounds discipline always: their
/// merges stay among their arguments and replication is the identity.
proof fn lemma_pend_ok_min_max(
    m: MergeOp,
    t: Seq<i32>,
    p: Seq<Option<i32>>,
    l: int,
    r: int,
    idx: int,
    anc: Option<int>,
)
    requires
        !(m is Sum),
        wf_of(m, t, p, l, r, idx),
        p.len() == t.len(),
        anc matches Some(a) ==> in_i32(a),
    ensures
        pend_ok(m, t, p, l, r, idx, anc),
    decreases r - l,
{
    let eff = oj(m, opt_int(p[idx]), anc);
    match eff {
        Some(v) => {
            assert forall|k: int| 1 <= k <= r - l + 1 implies in_i32(
                #[trigger] rep_val(m, v, k),
            ) by {
                lemma_rep_idem(m, v, k);
            }
            lemma_rep_idem(m, v, r - l + 1);
        },
        None => {},
    }
    if l < r {
        let m2 = midp(l, r);
        lemma_pend_ok_min_max(m, t, p, l, m2, idx + 1, eff);
        lemma_pend_ok_min_max(m, t, p, m2 + 1, r, idx + 2 * (m2 - l + 1), eff);
    }
}

/// Min- and max-trees satisfy the range-update bounds discipline always.
proof fn lemma_update_fits_min_max_rec(
    m: MergeOp,
    t: Seq<i32>,
    p: Seq<Option<i32>>,
    l: int,
    r: int,
    idx: int,
    anc: Option<int>,
    qs: int,
    qe: int,
    val: i32,
)
    requires
        !(m is Sum),
        wf_of(m, t, p, l, r, idx),
        p.len() == t.len(),
        anc matches Some(a) ==> in_i32(a),
        qs <= qe,
    ensures
        update_fits(m, t, p, l, r, idx, anc, qs, qe, val),
    decreases r - l,
{
    let eff = oj(m, opt_int(p[idx]), anc);
    if qe < l || r < qs {
    } else if qs <= l && r <= qe {
        if l == r {
        } else {
            let slot_grown = oj(m, opt_int(p[idx]), Some(val as int));
            let effv = oj(m, slot_grown, anc);
            match effv {
                Some(w) => {
                    assert forall|k: int| 1 <= k <= r - l + 1 implies in_i32(
                        #[trigger] rep_val(m, w, k),
                    ) by {
                        lemma_rep_idem(m, w, k);
                    }
                    lemma_rep_idem(m, w, r - l + 1);
                },
                None => {},
            }
            let m2 = midp(l, r);
            lemma_pend_ok_min_max(m, t, p, l, m2, idx + 1, effv);
            lemma_pend_ok_min_max(m, t, p, m2 + 1, r, idx + 2 * (m2 - l + 1), effv);
        }
    } else {
        let lo = if qs >= l { qs } else { l };
        let hi = if qe <= r { qe } else { r };
        let is_ = hi - lo + 1;
        assert(lo <= hi);
        assert forall|k: int| 1 <= k <= is_ implies in_i32(
            #[trigger] rep_val(m, val as int, k),
        ) by {
            lemma_rep_idem(m, val as int, k);
        }
        lemma_rep_idem(m, val as int, is_);
        match eff {
            Some(w) => {
                lemma_rep_idem(m, w, r - l + 1);
            },
            None => {},
        }
        let m2 = midp(l, r);
        lemma_update_fits_min_max_rec(m, t, p, l, m2, idx + 1, eff, qs, qe, val);
        lemma_update_fits_min_max_rec(
            m,
            t,
            p,
            m2 + 1,
            r,
            idx + 2 * (m2 - l + 1),
            eff,
            qs,
            qe,
            val,
        );
    }
}

/// A sum of values all within `[-c, c]` stays within `len * c`.
proof fn lemma_sum_abs_bound(s: Seq<int>, c: int)
    requires
        s.len() >= 1,
        c >= 0,
        forall|i: int| 0 <= i < s.len() ==> -c <= #[trigger] s[i] <= c,
    ensures
        -(s.len() * c) <= fold_vals(MergeOp::Sum, s) <= s.len() * c,
    decreases s.len(),
{
    if s.len() > 1 {
        assert(forall|i: int| 0 <= i < s.len() - 1 ==> #[trigger] s.drop_last()[i] == s[i]);
        lemma_sum_abs_bound(s.drop_last(), c);
        assert((s.len() - 1) * c + c == s.len() * c) by (nonlinear_arith);
    }
}

/// A pending-free sum-subtree with elements within `[-c, c]` satisfies the
/// pending bounds discipline once `v` is deferred over it, as long as the
/// segment's worth of elements and replications fits.
proof fn lemma_pend_ok_sum_free(
    t: Seq<i32>,
    p: Seq<Option<i32>>,
    l: int,
    r: int,
    idx: int,
    v: int,
    c: int,
)
    requires
        wf_of(MergeOp::Sum, t, p, l, r, idx),
        p.len() == t.len(),
        forall|k: int| idx <= k <= idx + 2 * (r - l) ==> #[trigger] p[k] is None,
        c >= 0,
        in_i32(v),
        forall|k: int|
            0 <= k < r - l + 1 ==> -c <= #[trigger] leaves_of(MergeOp::Sum, t, p, l, r, idx)[k]
                <= c,
        (r - l + 1) * (c + abs_of(v)) <= 0x7fff_ffff,
    ensures
        pend_ok(MergeOp::Sum, t, p, l, r, idx, Some(v)),
    decreases r - l,
{
    let m = MergeOp::Sum;
    let size = r - l + 1;
    let leaves = leaves_of(m, t, p, l, r, idx);
    lemma_val_is_fold(m, t, p, l, r, idx);
    lemma_sum_abs_bound(leaves, c);
    assert(val_of(m, t, p, l, r, idx) == t[idx] as int);
    assert forall|k: int| 1 <= k <= size implies in_i32(#[trigger] rep_val(m, v, k)) by {
        lemma_rep_sum(v, k);
        assert(k * abs_of(v) <= size * (c + abs_of(v))) by (nonlinear_arith)
            requires
                1 <= k <= size,
                c >= 0,
                abs_of(v) >= 0,
        ;
        assert(-(k * abs_of(v)) <= k * v <= k * abs_of(v)) by (nonlinear_arith)
            requires
                k >= 1,
        ;
    }
    lemma_rep_sum(v, size);
    assert(in_i32(mop(m, t[idx] as int, rep_val(m, v, size)))) by {
        assert(-(size * abs_of(v)) <= size * v <= size * abs_of(v)) by (nonlinear_arith)
            requires
                size >= 1,
        ;
        assert(size * c + size * abs_of(v) == size * (c + abs_of(v))) by (nonlinear_arith);
    }
    if l < r {
        let m2 = midp(l, r);
        let li = idx + 1;
        let ri = idx + 2 * (m2 - l + 1);
        lemma_val_is_fold(m, t, p, l, m2, li);
        lemma_val_is_fold(m, t, p, m2 + 1, r, ri);
        assert(leaves == leaves_of(m, t, p, l, m2, li) + leaves_of(m, t, p, m2 + 1, r, ri));
            assert forall|k: int| 0 <= k < m2 - l + 1 implies -c <= #[trigger] leaves_of(
                MergeOp::Sum,
                t,
                p,
                l,
                m2,
                li,
            )[k] <= c by {
                assert(leaves_of(MergeOp::Sum, t, p, l, m2, li)[k] == leaves[k]);
            }
            assert forall|k: int| 0 <= k < r - m2 implies -c <= #[trigger] leaves_of(
                MergeOp::Sum,
                t,
                p,
                m2 + 1,
                r,
                ri,
            )[k] <= c by {
                assert(leaves_of(MergeOp::Sum, t, p, m2 + 1, r, ri)[k] == leaves[k + (m2 - l + 1)]);
            }
        assert((m2 - l + 1) * (c + abs_of(v)) <= size * (c + abs_of(v))) by (nonlinear_arith)
            requires
                m2 - l + 1 <= size,
                c + abs_of(v) >= 0,
        ;
        assert((r - m2) * (c + abs_of(v)) <= size * (c + abs_of(v))) by (nonlinear_arith)
            requires
                r - m2 <= size,
                c + abs_of(v) >= 0,
        ;
        lemma_pend_ok_sum_free(t, p, l, m2, li, v, c);
        lemma_pend_ok_sum_free(t, p, m2 + 1, r, ri, v, c);
    }
}

/// A pending-free sum-subtree with elements within `[-c, c]` satisfies the
/// range-update bounds discipline for `val`, as long as one segment's worth
/// of elements and replications of `val` fits.
proof fn lemma_update_fits_sum_free(
    t: Seq<i32>,
    p: Seq<Option<i32>>,
    l: int,
    r: int,
    idx: int,
    qs: int,
    qe: int,
    val: i32,
    c: int,
)
    requires
        wf_of(MergeOp::Sum, t, p, l, r, idx),
        p.len() == t.len(),
        forall|k: int| idx <= k <= idx + 2 * (r - l) ==> #[trigger] p[k] is None,
        c >= 0,
        forall|k: int|
            0 <= k < r - l + 1 ==> -c <= #[trigger] leaves_of(MergeOp::Sum, t, p, l, r, idx)[k]
                <= c,
        (r - l + 1) * (c + abs_of(val as int)) <= 0x7fff_ffff,
        qs <= qe,
    ensures
        update_fits(MergeOp::Sum, t, p, l, r, idx, None, qs, qe, val),
    decreases r - l,
{
    let m = MergeOp::Sum;
    let size = r - l + 1;
    let vv = val as int;
    let leaves = leaves_of(m, t, p, l, r, idx);
    lemma_val_is_fold(m, t, p, l, r, idx);
    lemma_sum_abs_bound(leaves, c);
    assert(val_of(m, t, p, l, r, idx) == t[idx] as int);
    assert(size * c + size * abs_of(vv) == size * (c + abs_of(vv))) by (nonlinear_arith);
    if qe < l || r < qs {
    } else if qs <= l && r <= qe {
        if l == r {
            assert(leaves[0] == t[idx] as int);
            assert(size * (c + abs_of(vv)) == c + abs_of(vv)) by (nonlinear_arith)
                requires
                    size == 1,
            ;
            assert(in_i32(mop(m, t[idx] as int, vv)));
        } else {
            lemma_pend_ok_sum_free(t, p, l, r, idx, vv, c);
            assert(oj(m, opt_int(p[idx]), Some(vv)) == Some(vv));
            assert(pend_grow(m, t, p, l, r, idx, None, val));
            let m2 = midp(l, r);
            let li = idx + 1;
            let ri = idx + 2 * (m2 - l + 1);
            lemma_val_is_fold(m, t, p, l, m2, li);
            lemma_val_is_fold(m, t, p, m2 + 1, r, ri);
            assert(leaves == leaves_of(m, t, p, l, m2, li) + leaves_of(m, t, p, m2 + 1, r, ri));
            assert forall|k: int| 0 <= k < m2 - l + 1 implies -c <= #[trigger] leaves_of(
                MergeOp::Sum,
                t,
                p,
                l,
                m2,
                li,
            )[k] <= c by {
                assert(leaves_of(MergeOp::Sum, t, p, l, m2, li)[k] == leaves[k]);
            }
            assert forall|k: int| 0 <= k < r - m2 implies -c <= #[trigger] leaves_of(
                MergeOp::Sum,
                t,
                p,
                m2 + 1,
                r,
                ri,
            )[k] <= c by {
                assert(leaves_of(MergeOp::Sum, t, p, m2 + 1, r, ri)[k] == leaves[k + (m2 - l + 1)]);
            }
            assert((m2 - l + 1) * (c + abs_of(vv)) <= size * (c + abs_of(vv))) by (nonlinear_arith)
                requires
                    m2 - l + 1 <= size,
                    c + abs_of(vv) >= 0,
            ;
            assert((r - m2) * (c + abs_of(vv)) <= size * (c + abs_of(vv))) by (nonlinear_arith)
                requires
                    r - m2 <= size,
                    c + abs_of(vv) >= 0,
            ;
            lemma_pend_ok_sum_free(t, p, l, m2, li, vv, c);
            lemma_pend_ok_sum_free(t, p, m2 + 1, r, ri, vv, c);
        }
    } else {
        let lo = if qs >= l { qs } else { l };
        let hi = if qe <= r { qe } else { r };
        let is_ = hi - lo + 1;
        assert(lo <= hi);
        assert forall|k: int| 1 <= k <= is_ implies in_i32(#[trigger] rep_val(m, vv, k)) by {
            lemma_rep_sum(vv, k);
            assert(k * abs_of(vv) <= size * (c + abs_of(vv))) by (nonlinear_arith)
                requires
                    1 <= k <= size,
                    c >= 0,
                    abs_of(vv) >= 0,
            ;
            assert(-(k * abs_of(vv)) <= k * vv <= k * abs_of(vv)) by (nonlinear_arith)
                requires
                    k >= 1,
            ;
        }
        lemma_rep_sum(vv, is_);
        assert(in_i32(mop(m, rep_val(m, vv, is_), t[idx] as int))) by {
            assert(-(is_ * abs_of(vv)) <= is_ * vv <= is_ * abs_of(vv)) by (nonlinear_arith)
                requires
                    is_ >= 1,
            ;
            assert(is_ * abs_of(vv) <= size * abs_of(vv)) by (nonlinear_arith)
                requires
                    is_ <= size,
                    abs_of(vv) >= 0,
            ;
        }
        let m2 = midp(l, r);
        let li = idx + 1;
        let ri = idx + 2 * (m2 - l + 1);
        lemma_val_is_fold(m, t, p, l, m2, li);
        lemma_val_is_fold(m, t, p, m2 + 1, r, ri);
        assert(leaves == leaves_of(m, t, p, l, m2, li) + leaves_of(m, t, p, m2 + 1, r, ri));
            assert forall|k: int| 0 <= k < m2 - l + 1 implies -c <= #[trigger] leaves_of(
                MergeOp::Sum,
                t,
                p,
                l,
                m2,
                li,
            )[k] <= c by {
                assert(leaves_of(MergeOp::Sum, t, p, l, m2, li)[k] == leaves[k]);
            }
            assert forall|k: int| 0 <= k < r - m2 implies -c <= #[trigger] leaves_of(
                MergeOp::Sum,
                t,
                p,
                m2 + 1,
                r,
                ri,
            )[k] <= c by {
                assert(leaves_of(MergeOp::Sum, t, p, m2 + 1, r, ri)[k] == leaves[k + (m2 - l + 1)]);
            }
        assert((m2 - l + 1) * (c + abs_of(vv)) <= size * (c + abs_of(vv))) by (nonlinear_arith)
            requires
                m2 - l + 1 <= size,
                c + abs_of(vv) >= 0,
        ;
        assert((r - m2) * (c + abs_of(vv)) <= size * (c + abs_of(vv))) by (nonlinear_arith)
            requires
                r - m2 <= size,
                c + abs_of(vv) >= 0,
        ;
        lemma_update_fits_sum_free(t, p, l, m2, li, qs, qe, val, c);
        lemma_update_fits_sum_free(t, p, m2 + 1, r, ri, qs, qe, val, c);
    }
}

/// A pending-free subtree trivially satisfies the bounds discipline.
pub proof fn lemma_pend_ok_none(
    m: MergeOp,
    t: Seq<i32>,
    p: Seq<Option<i32>>,
    l: int,
    r: int,
    idx: int,
)
    requires
        0 <= l <= r,
        0 <= idx,
        idx + 2 * (r - l) < t.len(),
        forall|k: int| idx <= k <= idx + 2 * (r - l) ==> #[trigger] p[k] is None,
    ensures
        pend_ok(m, t, p, l, r, idx, None),
    decreases r - l,
{
    if l < r {
        let m2 = midp(l, r);
        lemma_pend_ok_none(m, t, p, l, m2, idx + 1);
        lemma_pend_ok_none(m, t, p, m2 + 1, r, idx + 2 * (m2 - l + 1));
    }
}

/// An all-zero store with no pendings is well formed whenever merging two
/// zeroes gives zero, and its elements are all zero.
pub proof fn lemma_zero_tree(
    m: MergeOp,
    t: Seq<i32>,
    p: Seq<Option<i32>>,
    l: int,
    r: int,
    idx: int,
)
    requires
        0 <= l <= r,
        0 <= idx,
        idx + 2 * (r - l) < t.len(),
        mop(m, 0, 0) == 0,
        forall|k: int| 0 <= k < t.len() ==> #[trigger] t[k] == 0i32,
        forall|k: int| 0 <= k < p.len() ==> #[trigger] p[k] is None,
        p.len() == t.len(),
    ensures
        wf_of(m, t, p, l, r, idx),
        leaves_of(m, t, p, l, r, idx) =~= Seq::new((r - l + 1) as nat, |i: int| 0),
        pend_ok(m, t, p, l, r, idx, None),
    decreases r - l,
{
    lemma_pend_ok_none(m, t, p, l, r, idx);
    if l < r {
        let m2 = midp(l, r);
        lemma_zero_tree(m, t, p, l, m2, idx + 1);
        lemma_zero_tree(m, t, p, m2 + 1, r, idx + 2 * (m2 - l + 1));
    }
}

// ===========================================================================
// The structure itself
// ===========================================================================

/// A closed interval `[start, end]` of element indices.
#[derive(Debug, Clone, Copy, PartialEq, Eq, Structural)]
pub struct Range {
    pub start: usize,
    pub end: usize,
}

impl Range {
    pub fn new(start: usize, end: usize) -> (r: Range)
        ensures
            r.start == start,
            r.end == end,
    {
        Range { start, end }
    }

    /// True when `self` fully covers `other`.
    pub fn contains(&self, other: Range) -> (r: bool)
        ensures
            r == (self.start <= other.start && other.end <= self.end),
    {
        self.start <= other.start && self.end >= other.end
    }

    pub fn size(&self) -> (r: usize)
        requires
            self.start <= self.end,
            self.end - self.start < usize::MAX,
        ensures
            r == self.end - self.start + 1,
    {
        self.end - self.start + 1
    }

    pub fn intersect(&self, other: Range) -> (r: Range)
        ensures
            r.start == (if self.start >= other.start { self.start } else { other.start }),
            r.end == (if self.end <= other.end { self.end } else { other.end }),
    {
        let s = if self.start >= other.start { self.start } else { other.start };
        let e = if self.end <= other.end { self.end } else { other.end };
        Range::new(s, e)
    }

    /// True when the two intervals are disjoint.
    pub fn no_overlap(&self, other: Range) -> (r: bool)
        ensures
            r == (self.end < other.start || other.end < self.start),
    {
        self.end < other.start || other.end < self.start
    }

    /// Floor midpoint of the interval.
    pub fn middle(&self) -> (r: usize)
        requires
            self.start <= self.end,
        ensures
            r == (self.start + self.end) / 2,
            self.start <= r <= self.end,
            self.start < self.end ==> r < self.end,
    {
        self.start + ((self.end - self.start) / 2)
    }
}

/// Lazy segment tree over `i32` values under a chosen merge operation:
/// `query` merges a range, `add` merges a value into one element, and
/// `range_update` merges a value into every element of a range, deferring
/// work below totally-overlapped nodes.
pub struct IntegerSegmentTree {
    tree: Vec<i32>,
    pending_updates: Vec<Option<i32>>,
    num_leaf: usize,
    neutral_value: i32,
    merge_values: MergeOp,
}

impl IntegerSegmentTree {
    /// Internal invariant: layout, aggregates and pending bounds consistent.
    pub closed spec fn wf(self) -> bool {
        &&& self.num_leaf >= 1
        &&& self.tree@.len() == 2 * (self.num_leaf as int) - 1
        &&& self.pending_updates@.len() == self.tree@.len()
        &&& wf_of(self.merge_values, self.tree@, self.pending_updates@, 0, self.num_leaf as int - 1, 0)
        &&& pend_ok(
            self.merge_values,
            self.tree@,
            self.pending_updates@,
            0,
            self.num_leaf as int - 1,
            0,
            None,
        )
    }

    /// The model: the current true value of every element.
    pub closed spec fn leaves(self) -> Seq<int> {
        leaves_of(self.merge_values, self.tree@, self.pending_updates@, 0, self.num_leaf as int - 1, 0)
    }

    pub closed spec fn leaf_count(self) -> int {
        self.num_leaf as int
    }

    pub closed spec fn slot_count(self) -> int {
        self.tree@.len() as int
    }

    pub closed spec fn merge_op(self) -> MergeOp {
        self.merge_values
    }

    pub closed spec fn neutral(self) -> i32 {
        self.neutral_value
    }

    /// Model facts every well-formed tree satisfies.
    pub proof fn lemma_model(self)
        requires
            self.wf(),
        ensures
            self.leaves().len() == self.leaf_count(),
            self.leaf_count() >= 1,
            self.slot_count() == 2 * self.leaf_count() - 1,
    {
        lemma_val_is_fold(
            self.merge_values,
            self.tree@,
            self.pending_updates@,
            0,
            self.num_leaf as int - 1,
            0,
        );
    }

    /// Raw stored aggregate of one implicit slot (introspection): in a
    /// pending-free tree, `lemma_node_values` pins it to the merge of the
    /// model over the slot's segment.
    pub fn get_index(&self, i: usize) -> (r: i32)
        requires
            i < self.slot_count(),
        ensures
            r == self.spec_node_value(i as int),
    {
        self.tree[i]
    }

    pub closed spec fn spec_node_value(self, i: int) -> i32 {
        self.tree@[i]
    }

    /// An all-neutral-filled structure of `num_elems` leaves. The stored
    /// zero fill is consistent for any operation that keeps zero at zero.
    pub fn build_empty(num_elems: usize, neutral_value: i32, merge_values: MergeOp) -> (st:
        IntegerSegmentTree)
        requires
            1 <= num_elems,
            num_elems <= 0x4000_0000,
            mop(merge_values, 0, 0) == 0,
        ensures
            st.wf(),
            st.leaf_count() == num_elems,
            st.leaves() == Seq::new(num_elems as nat, |i: int| 0int),
            st.merge_op() == merge_values,
            st.neutral() == neutral_value,
            st.pending_free(),
    {
        let implicit_tree: Vec<i32> = filled_i32(2 * num_elems - 1, 0);
        let pending = filled_none(2 * num_elems - 1);
        let segment_tree = IntegerSegmentTree {
            tree: implicit_tree,
            pending_updates: pending,
            num_leaf: num_elems,
            neutral_value,
            merge_values,
        };
        proof {
            lemma_zero_tree(
                merge_values,
                segment_tree.tree@,
                segment_tree.pending_updates@,
                0,
                num_elems as int - 1,
                0,
            );
            assert(segment_tree.leaves() =~= Seq::new(num_elems as nat, |i: int| 0int));
        }
        segment_tree
    }

    /// Build from an initial sequence: leaves take the elements in index
    /// order and every internal node merges its children, so the model is
    /// exactly the input. The caller owes that every subrange of the input
    /// merges within the `i32` range.
    pub fn build(a: &[i32], neutral_value: i32, merge_values: MergeOp) -> (st: IntegerSegmentTree)
        requires
            1 <= a@.len(),
            a@.len() <= 0x4000_0000,
            agg_fits(merge_values, ints(a@)),
        ensures
            st.wf(),
            st.leaf_count() == a@.len(),
            st.leaves() == ints(a@),
            st.merge_op() == merge_values,
            st.neutral() == neutral_value,
            st.pending_free(),
    {
        let n = a.len();
        let mut implicit_tree: Vec<i32> = filled_i32(2 * n - 1, 0);
        Self::build_recursively(a, &mut implicit_tree, 0, n - 1, 0, merge_values);
        let pending = filled_none(2 * n - 1);
        let segment_tree = IntegerSegmentTree {
            tree: implicit_tree,
            pending_updates: pending,
            num_leaf: n,
            neutral_value,
            merge_values,
        };
        proof {
            let pn = no_pend(segment_tree.tree@.len() as int);
            assert(segment_tree.pending_updates@ =~= pn);
            lemma_pend_ok_none(
                merge_values,
                segment_tree.tree@,
                segment_tree.pending_updates@,
                0,
                n as int - 1,
                0,
            );
            assert(segment_tree.leaves() =~= ints(a@.subrange(0, n as int)));
            assert(a@.subrange(0, n as int) =~= a@);
        }
        segment_tree
    }

    #[verifier::rlimit(100)]
    fn build_recursively(
        a: &[i32],
        tree: &mut Vec<i32>,
        l: usize,
        r: usize,
        index: usize,
        merge_values: MergeOp,
    )
        requires
            l <= r,
            r < a@.len(),
            index + 2 * (r - l) < old(tree)@.len(),
            agg_fits(merge_values, ints(a@)),
        ensures
            final(tree)@.len() == old(tree)@.len(),
            forall|k: int|
                0 <= k < old(tree)@.len() && !(index <= k <= index + 2 * (r - l))
                    ==> final(tree)@[k] == old(tree)@[k],
            wf_of(
                merge_values,
                final(tree)@,
                no_pend(final(tree)@.len() as int),
                l as int,
                r as int,
                index as int,
            ),
            leaves_of(
                merge_values,
                final(tree)@,
                no_pend(final(tree)@.len() as int),
                l as int,
                r as int,
                index as int,
            ) == ints(a@.subrange(l as int, r as int + 1)),
        decreases r - l,
    {
        let ghost pn = no_pend(old(tree)@.len() as int);
        let capacity = tree.len();
        let elems = a.len();
        assert(r < elems && index + 2 * (r - l) < capacity);
        if l == r {
            tree.set(index, a[l]);
            proof {
                assert(leaves_of(merge_values, tree@, pn, l as int, r as int, index as int)
                    =~= ints(a@.subrange(l as int, r as int + 1)));
            }
            return ;
        }
        let middle = l + (r - l) / 2;
        assert(middle as int == midp(l as int, r as int));
        let left_child_index = index + 1;
        let right_child_index = index + 2 * (middle - l + 1);
        Self::build_recursively(a, tree, l, middle, left_child_index, merge_values);
        let ghost t_a = tree@;
        Self::build_recursively(a, tree, middle + 1, r, right_child_index, merge_values);
        let ghost t_mid = tree@;
        let lv = tree[left_child_index];
        let rv = tree[right_child_index];
        proof {
            let si = l as int;
            let ei = r as int;
            let mi = middle as int;
            let li = left_child_index as int;
            let ri = right_child_index as int;
            lemma_tree_frame(merge_values, t_a, pn, t_mid, pn, si, mi, li);
            lemma_val_is_fold(merge_values, t_mid, pn, si, mi, li);
            lemma_val_is_fold(merge_values, t_mid, pn, mi + 1, ei, ri);
            let bl = leaves_of(merge_values, t_mid, pn, si, mi, li);
            let br = leaves_of(merge_values, t_mid, pn, mi + 1, ei, ri);
            lemma_fold_concat(merge_values, bl, br);
            assert(bl + br =~= ints(a@.subrange(si, ei + 1))) by {
                assert(bl == ints(a@.subrange(si, mi + 1)));
                assert(br == ints(a@.subrange(mi + 1, ei + 1)));
            }
            assert(ints(a@.subrange(si, ei + 1)) =~= ints(a@).subrange(si, ei + 1));
            assert(in_i32(mop(merge_values, lv as int, rv as int)));
        }
        let value = merge_values.apply(lv, rv);
        tree.set(index, value);
        proof {
            let si = l as int;
            let ei = r as int;
            let mi = middle as int;
            let li = left_child_index as int;
            let ri = right_child_index as int;
            lemma_tree_frame(merge_values, t_mid, pn, tree@, pn, si, mi, li);
            lemma_tree_frame(merge_values, t_mid, pn, tree@, pn, mi + 1, ei, ri);
            lemma_val_is_fold(merge_values, tree@, pn, si, mi, li);
            lemma_val_is_fold(merge_values, tree@, pn, mi + 1, ei, ri);
            assert(wf_of(merge_values, tree@, pn, si, ei, index as int));
            let bl = leaves_of(merge_values, tree@, pn, si, mi, li);
            let br = leaves_of(merge_values, tree@, pn, mi + 1, ei, ri);
            assert(bl + br =~= ints(a@.subrange(si, ei + 1)));
        }
    }
    /// Flush this node's pending update, if any: apply its replication to
    /// the stored aggregate, push it to the children, clear the slot.
    fn handle_pending(&mut self, l: usize, r: usize, index: usize)
        requires
            old(self).pending_updates@.len() == old(self).tree@.len(),
            l <= r,
            index + 2 * (r - l) < old(self).tree@.len(),
            wf_of(
                old(self).merge_values,
                old(self).tree@,
                old(self).pending_updates@,
                l as int,
                r as int,
                index as int,
            ),
            pend_ok(
                old(self).merge_values,
                old(self).tree@,
                old(self).pending_updates@,
                l as int,
                r as int,
                index as int,
                None,
            ),
        ensures
            final(self).num_leaf == old(self).num_leaf,
            final(self).merge_values == old(self).merge_values,
            final(self).neutral_value == old(self).neutral_value,
            final(self).tree@.len() == old(self).tree@.len(),
            final(self).pending_updates@.len() == old(self).pending_updates@.len(),
            forall|k: int|
                0 <= k < old(self).tree@.len() && !(index <= k <= index + 2 * (r - l))
                    ==> final(self).tree@[k] == old(self).tree@[k]
                    && final(self).pending_updates@[k] == old(self).pending_updates@[k],
            final(self).pending_updates@[index as int] is None,
            wf_of(
                final(self).merge_values,
                final(self).tree@,
                final(self).pending_updates@,
                l as int,
                r as int,
                index as int,
            ),
            pend_ok(
                final(self).merge_values,
                final(self).tree@,
                final(self).pending_updates@,
                l as int,
                r as int,
                index as int,
                None,
            ),
            leaves_of(
                final(self).merge_values,
                final(self).tree@,
                final(self).pending_updates@,
                l as int,
                r as int,
                index as int,
            ) == leaves_of(
                old(self).merge_values,
                old(self).tree@,
                old(self).pending_updates@,
                l as int,
                r as int,
                index as int,
            ),
            final(self).tree@[index as int] as int == val_of(
                old(self).merge_values,
                old(self).tree@,
                old(self).pending_updates@,
                l as int,
                r as int,
                index as int,
            ),
            old(self).pending_updates@[index as int] is None ==> *final(self) == *old(self),
    {
        let m = self.merge_values;
        let total = self.tree.len();
        assert(index + 2 * (r - l) < total);
        let p_idx = self.pending_updates[index];
        if let Some(v) = p_idx {
            let ghost t0 = self.tree@;
            let ghost p0 = self.pending_updates@;
            let ghost li_g = index as int + 1;
            let ghost ri_g = index as int + 2 * (midp(l as int, r as int) - l as int + 1);
            proof {
                assert(oj(m, opt_int(p0[index as int]), None) == Some(v as int));
            }
            let size = r - l + 1;
            let repeated = rep_apply(m, v, size);
            let cur = self.tree[index];
            let x = m.apply(cur, repeated);
            self.tree.set(index, x);
            let mut jl: Option<i32> = None;
            let mut jr: Option<i32> = None;
            if l < r {
                let middle = l + (r - l) / 2;
                assert(middle as int == midp(l as int, r as int));
                let li = index + 1;
                let ri = index + 2 * (middle - l + 1);
                proof {
                    assert(pend_ok(m, t0, p0, l as int, middle as int, li as int, Some(v as int)));
                    assert(pend_ok(
                        m,
                        t0,
                        p0,
                        middle as int + 1,
                        r as int,
                        ri as int,
                        Some(v as int),
                    ));
                }
                let pl = self.pending_updates[li];
                jl = match pl {
                    Some(w) => Some(m.apply(w, v)),
                    None => Some(v),
                };
                self.pending_updates.set(li, jl);
                let pr = self.pending_updates[ri];
                jr = match pr {
                    Some(w) => Some(m.apply(w, v)),
                    None => Some(v),
                };
                self.pending_updates.set(ri, jr);
            }
            self.pending_updates.set(index, None);
            proof {
                lemma_flush(
                    m,
                    t0,
                    p0,
                    self.tree@,
                    self.pending_updates@,
                    l as int,
                    r as int,
                    index as int,
                    v,
                    x,
                    jl,
                    jr,
                );
            }
        }
    }

    pub fn query(&mut self, i: usize, j: usize) -> (res: i32)
        requires
            old(self).wf(),
            i <= j ==> agg_fits(old(self).merge_op(), old(self).leaves()),
            i > j || j < old(self).leaf_count(),
        ensures
            final(self).wf(),
            final(self).leaf_count() == old(self).leaf_count(),
            final(self).merge_op() == old(self).merge_op(),
            final(self).neutral() == old(self).neutral(),
            final(self).leaves() == old(self).leaves(),
            old(self).pending_free() ==> final(self).pending_free(),
            i > j ==> res == old(self).neutral(),
            i <= j ==> res as int == fold_vals(
                old(self).merge_op(),
                old(self).leaves().subrange(i as int, j as int + 1),
            ),
    {
        if i > j {
            return self.neutral_value;
        }
        let n = self.num_leaf;
        let res = self.rec_query(Range::new(i, j), Range::new(0, n - 1), 0);
        proof {
            let lo: int = if i as int >= 0 { i as int } else { 0 };
            let hi: int = if j as int <= n as int - 1 { j as int } else { n as int - 1 };
            assert(old(self).leaves().subrange(i as int, j as int + 1) =~= old(
                self,
            ).leaves().subrange(lo, hi + 1));
        }
        res
    }

    #[verifier::rlimit(100)]
    fn rec_query(&mut self, query_range: Range, node_segment: Range, index: usize) -> (res: i32)
        requires
            old(self).pending_updates@.len() == old(self).tree@.len(),
            query_range.start <= query_range.end,
            node_segment.start <= node_segment.end,
            index + 2 * (node_segment.end - node_segment.start) < old(self).tree@.len(),
            wf_of(
                old(self).merge_values,
                old(self).tree@,
                old(self).pending_updates@,
                node_segment.start as int,
                node_segment.end as int,
                index as int,
            ),
            pend_ok(
                old(self).merge_values,
                old(self).tree@,
                old(self).pending_updates@,
                node_segment.start as int,
                node_segment.end as int,
                index as int,
                None,
            ),
            agg_fits(
                old(self).merge_values,
                leaves_of(
                    old(self).merge_values,
                    old(self).tree@,
                    old(self).pending_updates@,
                    node_segment.start as int,
                    node_segment.end as int,
                    index as int,
                ),
            ),
            !(query_range.end < node_segment.start || node_segment.end < query_range.start),
        ensures
            final(self).num_leaf == old(self).num_leaf,
            final(self).merge_values == old(self).merge_values,
            final(self).neutral_value == old(self).neutral_value,
            final(self).tree@.len() == old(self).tree@.len(),
            final(self).pending_updates@.len() == old(self).pending_updates@.len(),
            forall|k: int|
                0 <= k < old(self).tree@.len() && !(index <= k <= index + 2 * (node_segment.end
                    - node_segment.start)) ==> final(self).tree@[k] == old(self).tree@[k]
                    && final(self).pending_updates@[k] == old(self).pending_updates@[k],
            wf_of(
                final(self).merge_values,
                final(self).tree@,
                final(self).pending_updates@,
                node_segment.start as int,
                node_segment.end as int,
                index as int,
            ),
            pend_ok(
                final(self).merge_values,
                final(self).tree@,
                final(self).pending_updates@,
                node_segment.start as int,
                node_segment.end as int,
                index as int,
                None,
            ),
            leaves_of(
                final(self).merge_values,
                final(self).tree@,
                final(self).pending_updates@,
                node_segment.start as int,
                node_segment.end as int,
                index as int,
            ) == leaves_of(
                old(self).merge_values,
                old(self).tree@,
                old(self).pending_updates@,
                node_segment.start as int,
                node_segment.end as int,
                index as int,
            ),
            (forall|k: int|
                0 <= k < old(self).pending_updates@.len() ==> old(self).pending_updates@[k]
                    is None) ==> final(self).pending_updates@ == old(self).pending_updates@,
            res as int == fold_vals(
                old(self).merge_values,
                leaves_of(
                    old(self).merge_values,
                    old(self).tree@,
                    old(self).pending_updates@,
                    node_segment.start as int,
                    node_segment.end as int,
                    index as int,
                ).subrange(
                    (if query_range.start as int >= node_segment.start as int {
                        query_range.start as int
                    } else {
                        node_segment.start as int
                    }) - node_segment.start as int,
                    (if query_range.end as int <= node_segment.end as int {
                        query_range.end as int
                    } else {
                        node_segment.end as int
                    }) - node_segment.start as int + 1,
                ),
            ),
        decreases node_segment.end - node_segment.start,
    {
        let ghost s = node_segment.start as int;
        let ghost e = node_segment.end as int;
        let ghost ix = index as int;
        let ghost qs = query_range.start as int;
        let ghost qe = query_range.end as int;
        let m = self.merge_values;
        let total = self.tree.len();
        assert(index + 2 * (node_segment.end - node_segment.start) < total);
        self.handle_pending(node_segment.start, node_segment.end, index);
        let ghost t1 = self.tree@;
        let ghost p1 = self.pending_updates@;
        let ghost leaves = leaves_of(m, t1, p1, s, e, ix);
        proof {
            lemma_val_is_fold(m, t1, p1, s, e, ix);
        }
        if query_range.contains(node_segment) {
            proof {
                let lo = if qs >= s { qs } else { s };
                let hi = if qe <= e { qe } else { e };
                assert(leaves.subrange(lo - s, hi - s + 1) =~= leaves);
            }
            return self.tree[index];
        }
        // partial overlap
        let middle = node_segment.middle();
        let left_child_index = index + 1;
        let right_child_index = index + 2 * (middle - node_segment.start + 1);
        let ghost mi = middle as int;
        let ghost li = left_child_index as int;
        let ghost ri = right_child_index as int;
        let ghost left_leaves = leaves_of(m, t1, p1, s, mi, li);
        let ghost right_leaves = leaves_of(m, t1, p1, mi + 1, e, ri);
        proof {
            lemma_val_is_fold(m, t1, p1, s, mi, li);
            lemma_val_is_fold(m, t1, p1, mi + 1, e, ri);
            assert(leaves == left_leaves + right_leaves);
            assert(left_leaves =~= leaves.subrange(0, mi - s + 1));
            assert(right_leaves =~= leaves.subrange(mi - s + 1, e - s + 1));
            lemma_agg_fits_subrange(m, leaves, 0, mi - s + 1);
            lemma_agg_fits_subrange(m, leaves, mi - s + 1, e - s + 1);
        }
        let lo = if query_range.start >= node_segment.start {
            query_range.start
        } else {
            node_segment.start
        };
        let hi = if query_range.end <= node_segment.end {
            query_range.end
        } else {
            node_segment.end
        };
        if query_range.end <= middle {
            // the query lies wholly in the left child
            let res = self.rec_query(query_range, Range::new(node_segment.start, middle), left_child_index);
            proof {
                lemma_tree_frame(m, t1, p1, self.tree@, self.pending_updates@, mi + 1, e, ri);
                lemma_val_is_fold(m, self.tree@, self.pending_updates@, s, mi, li);
                lemma_val_is_fold(m, self.tree@, self.pending_updates@, mi + 1, e, ri);
                assert(wf_of(m, self.tree@, self.pending_updates@, s, e, ix));
                assert(pend_ok(m, self.tree@, self.pending_updates@, s, e, ix, None)) by {
                    assert(oj(m, opt_int(p1[ix]), None) == None::<int>);
                    assert(pend_ok(m, t1, p1, s, mi, li, None));
                    assert(pend_ok(m, t1, p1, mi + 1, e, ri, None));
                    assert(pend_ok(m, self.tree@, self.pending_updates@, s, mi, li, None));
                    assert(pend_ok(m, self.tree@, self.pending_updates@, mi + 1, e, ri, None));
                    assert(self.pending_updates@[ix] == p1[ix]);
                    assert(oj(m, opt_int(self.pending_updates@[ix]), None) == None::<int>);
                }
                assert(leaves_of(m, self.tree@, self.pending_updates@, s, e, ix) == leaves);
                assert(leaves.subrange(lo as int - s, hi as int - s + 1) =~= left_leaves.subrange(
                    lo as int - s,
                    hi as int - s + 1,
                ));
            }
            res
        } else if query_range.start > middle {
            // the query lies wholly in the right child
            let res = self.rec_query(
                query_range,
                Range::new(middle + 1, node_segment.end),
                right_child_index,
            );
            proof {
                lemma_tree_frame(m, t1, p1, self.tree@, self.pending_updates@, s, mi, li);
                lemma_val_is_fold(m, self.tree@, self.pending_updates@, s, mi, li);
                lemma_val_is_fold(m, self.tree@, self.pending_updates@, mi + 1, e, ri);
                assert(wf_of(m, self.tree@, self.pending_updates@, s, e, ix));
                assert(pend_ok(m, self.tree@, self.pending_updates@, s, e, ix, None)) by {
                    assert(oj(m, opt_int(p1[ix]), None) == None::<int>);
                    assert(pend_ok(m, t1, p1, s, mi, li, None));
                    assert(pend_ok(m, t1, p1, mi + 1, e, ri, None));
                    assert(pend_ok(m, self.tree@, self.pending_updates@, s, mi, li, None));
                    assert(pend_ok(m, self.tree@, self.pending_updates@, mi + 1, e, ri, None));
                    assert(self.pending_updates@[ix] == p1[ix]);
                    assert(oj(m, opt_int(self.pending_updates@[ix]), None) == None::<int>);
                }
                assert(leaves_of(m, self.tree@, self.pending_updates@, s, e, ix) == leaves);
                assert(leaves.subrange(lo as int - s, hi as int - s + 1) =~= right_leaves.subrange(
                    lo as int - (mi + 1),
                    hi as int - (mi + 1) + 1,
                ));
            }
            res
        } else {
            // the query straddles the midpoint
            let left_sum = self.rec_query(
                query_range,
                Range::new(node_segment.start, middle),
                left_child_index,
            );
            let ghost t2 = self.tree@;
            let ghost p2 = self.pending_updates@;
            proof {
                lemma_tree_frame(m, t1, p1, t2, p2, mi + 1, e, ri);
            }
            let right_sum = self.rec_query(
                query_range,
                Range::new(middle + 1, node_segment.end),
                right_child_index,
            );
            let ghost t3 = self.tree@;
            let ghost p3 = self.pending_updates@;
            proof {
                lemma_tree_frame(m, t2, p2, t3, p3, s, mi, li);
                lemma_val_is_fold(m, t3, p3, s, mi, li);
                lemma_val_is_fold(m, t3, p3, mi + 1, e, ri);
                assert(wf_of(m, t3, p3, s, e, ix)) by {
                    assert(t3[ix] == t1[ix] && p3[ix] == p1[ix]);
                }
                assert(pend_ok(m, t3, p3, s, e, ix, None)) by {
                    assert(oj(m, opt_int(p1[ix]), None) == None::<int>);
                    assert(pend_ok(m, t1, p1, s, mi, li, None));
                    assert(pend_ok(m, t1, p1, mi + 1, e, ri, None));
                    assert(pend_ok(m, t3, p3, s, mi, li, None));
                    assert(pend_ok(m, t3, p3, mi + 1, e, ri, None));
                    assert(p3[ix] == p1[ix]);
                    assert(oj(m, opt_int(p3[ix]), None) == None::<int>);
                }
                assert(leaves_of(m, t3, p3, s, e, ix) == leaves);
                let a = left_leaves.subrange(lo as int - s, mi - s + 1);
                let b = right_leaves.subrange(0, hi as int - (mi + 1) + 1);
                assert(leaves.subrange(lo as int - s, hi as int - s + 1) =~= a + b);
                lemma_fold_concat(m, a, b);
                assert(a + b =~= leaves.subrange(lo as int - s, hi as int - s + 1));
                assert(in_i32(fold_vals(m, leaves.subrange(lo as int - s, hi as int - s + 1))));
            }
            let res = m.apply(left_sum, right_sum);
            res
        }
    }

    /// Point update: merge `val` into element `i` and keep every ancestor
    /// aggregate correct, flushing pending updates met on the path. The
    /// caller owes that the updated model still merges within range
    /// everywhere.
    pub fn add(&mut self, i: usize, val: i32)
        requires
            old(self).wf(),
            i < old(self).leaf_count(),
            agg_fits(
                old(self).merge_op(),
                old(self).leaves().update(
                    i as int,
                    mop(old(self).merge_op(), old(self).leaves()[i as int], val as int),
                ),
            ),
        ensures
            final(self).wf(),
            final(self).leaf_count() == old(self).leaf_count(),
            final(self).merge_op() == old(self).merge_op(),
            final(self).neutral() == old(self).neutral(),
            final(self).leaves() == old(self).leaves().update(
                i as int,
                mop(old(self).merge_op(), old(self).leaves()[i as int], val as int),
            ),
            old(self).pending_free() ==> final(self).pending_free(),
    {
        proof {
            self.lemma_model();
        }
        let n = self.num_leaf;
        self.add_rec(i, val, 0, n - 1, 0);
    }

    #[verifier::rlimit(100)]
    fn add_rec(&mut self, i: usize, val: i32, l_s: usize, r_s: usize, nav_index: usize)
        requires
            old(self).pending_updates@.len() == old(self).tree@.len(),
            l_s <= i <= r_s,
            nav_index + 2 * (r_s - l_s) < old(self).tree@.len(),
            wf_of(
                old(self).merge_values,
                old(self).tree@,
                old(self).pending_updates@,
                l_s as int,
                r_s as int,
                nav_index as int,
            ),
            pend_ok(
                old(self).merge_values,
                old(self).tree@,
                old(self).pending_updates@,
                l_s as int,
                r_s as int,
                nav_index as int,
                None,
            ),
            agg_fits(
                old(self).merge_values,
                leaves_of(
                    old(self).merge_values,
                    old(self).tree@,
                    old(self).pending_updates@,
                    l_s as int,
                    r_s as int,
                    nav_index as int,
                ).update(
                    i - l_s,
                    mop(
                        old(self).merge_values,
                        leaves_of(
                            old(self).merge_values,
                            old(self).tree@,
                            old(self).pending_updates@,
                            l_s as int,
                            r_s as int,
                            nav_index as int,
                        )[i - l_s],
                        val as int,
                    ),
                ),
            ),
        ensures
            final(self).num_leaf == old(self).num_leaf,
            final(self).merge_values == old(self).merge_values,
            final(self).neutral_value == old(self).neutral_value,
            final(self).tree@.len() == old(self).tree@.len(),
            final(self).pending_updates@.len() == old(self).pending_updates@.len(),
            forall|k: int|
                0 <= k < old(self).tree@.len() && !(nav_index <= k <= nav_index + 2 * (r_s - l_s))
                    ==> final(self).tree@[k] == old(self).tree@[k]
                    && final(self).pending_updates@[k] == old(self).pending_updates@[k],
            final(self).pending_updates@[nav_index as int] is None,
            wf_of(
                final(self).merge_values,
                final(self).tree@,
                final(self).pending_updates@,
                l_s as int,
                r_s as int,
                nav_index as int,
            ),
            pend_ok(
                final(self).merge_values,
                final(self).tree@,
                final(self).pending_updates@,
                l_s as int,
                r_s as int,
                nav_index as int,
                None,
            ),
            (forall|k: int|
                0 <= k < old(self).pending_updates@.len() ==> old(self).pending_updates@[k]
                    is None) ==> final(self).pending_updates@ == old(self).pending_updates@,
            leaves_of(
                final(self).merge_values,
                final(self).tree@,
                final(self).pending_updates@,
                l_s as int,
                r_s as int,
                nav_index as int,
            ) == leaves_of(
                old(self).merge_values,
                old(self).tree@,
                old(self).pending_updates@,
                l_s as int,
                r_s as int,
                nav_index as int,
            ).update(
                i - l_s,
                mop(
                    old(self).merge_values,
                    leaves_of(
                        old(self).merge_values,
                        old(self).tree@,
                        old(self).pending_updates@,
                        l_s as int,
                        r_s as int,
                        nav_index as int,
                    )[i - l_s],
                    val as int,
                ),
            ),
        decreases r_s - l_s,
    {
        let ghost s = l_s as int;
        let ghost e = r_s as int;
        let ghost ix = nav_index as int;
        let m = self.merge_values;
        let total = self.tree.len();
        assert(nav_index + 2 * (r_s - l_s) < total);
        let ghost old_leaves = leaves_of(m, old(self).tree@, old(self).pending_updates@, s, e, ix);
        let ghost new_leaves = old_leaves.update(
            i - s,
            mop(m, old_leaves[i - s], val as int),
        );
        self.handle_pending(l_s, r_s, nav_index);
        let ghost t1 = self.tree@;
        let ghost p1 = self.pending_updates@;
        proof {
            lemma_val_is_fold(m, t1, p1, s, e, ix);
        }
        if l_s == r_s {
            let cur = self.tree[nav_index];
            proof {
                assert(leaves_of(m, t1, p1, s, e, ix) == seq![cur as int]);
                assert(old_leaves[0] == cur as int);
                assert(new_leaves[0] == mop(m, cur as int, val as int));
                assert(new_leaves.subrange(0, 1) =~= new_leaves);
                assert(in_i32(fold_vals(m, new_leaves.subrange(0, 1))));
            }
            let x = m.apply(cur, val);
            self.tree.set(nav_index, x);
            proof {
                assert(leaves_of(m, self.tree@, self.pending_updates@, s, e, ix)
                    =~= new_leaves);
                assert(oj(m, opt_int(self.pending_updates@[ix]), None) == None::<int>);
            }
            return ;
        }
        let middle = l_s + (r_s - l_s) / 2;
        assert(middle as int == midp(s, e));
        let left_child_index = nav_index + 1;
        let right_child_index = nav_index + 2 * (middle - l_s + 1);
        let ghost mi = middle as int;
        let ghost li = left_child_index as int;
        let ghost ri = right_child_index as int;
        let ghost left_leaves = leaves_of(m, t1, p1, s, mi, li);
        let ghost right_leaves = leaves_of(m, t1, p1, mi + 1, e, ri);
        proof {
            lemma_val_is_fold(m, t1, p1, s, mi, li);
            lemma_val_is_fold(m, t1, p1, mi + 1, e, ri);
            assert(leaves_of(m, t1, p1, s, e, ix) == left_leaves + right_leaves);
            assert(old_leaves == left_leaves + right_leaves);
            assert(pend_ok(m, t1, p1, s, mi, li, None) && pend_ok(m, t1, p1, mi + 1, e, ri, None))
                by {
                assert(oj(m, opt_int(p1[ix]), None) == None::<int>);
            }
        }
        if i <= middle {
            self.handle_pending(middle + 1, r_s, right_child_index);
            let ghost t2 = self.tree@;
            let ghost p2 = self.pending_updates@;
            proof {
                lemma_tree_frame(m, t1, p1, t2, p2, s, mi, li);
                assert(left_leaves.update(i - s, mop(m, left_leaves[i - s], val as int))
                    =~= new_leaves.subrange(0, mi - s + 1));
                lemma_agg_fits_subrange(m, new_leaves, 0, mi - s + 1);
            }
            self.add_rec(i, val, l_s, middle, left_child_index);
            let ghost t3 = self.tree@;
            let ghost p3 = self.pending_updates@;
            proof {
                lemma_tree_frame(m, t2, p2, t3, p3, mi + 1, e, ri);
            }
        } else {
            self.handle_pending(l_s, middle, left_child_index);
            let ghost t2 = self.tree@;
            let ghost p2 = self.pending_updates@;
            proof {
                lemma_tree_frame(m, t1, p1, t2, p2, mi + 1, e, ri);
                assert(right_leaves.update(i - (mi + 1), mop(m, right_leaves[i - (mi + 1)], val as int))
                    =~= new_leaves.subrange(mi - s + 1, e - s + 1));
                lemma_agg_fits_subrange(m, new_leaves, mi - s + 1, e - s + 1);
            }
            self.add_rec(i, val, middle + 1, r_s, right_child_index);
            let ghost t3 = self.tree@;
            let ghost p3 = self.pending_updates@;
            proof {
                lemma_tree_frame(m, t2, p2, t3, p3, s, mi, li);
            }
        }
        let ghost t4 = self.tree@;
        let ghost p4 = self.pending_updates@;
        proof {
            lemma_val_is_fold(m, t4, p4, s, mi, li);
            lemma_val_is_fold(m, t4, p4, mi + 1, e, ri);
            assert(p4[li] is None && p4[ri] is None);
            assert(leaves_of(m, t4, p4, s, mi, li) + leaves_of(m, t4, p4, mi + 1, e, ri)
                =~= new_leaves);
            assert(new_leaves.subrange(0, new_leaves.len() as int) =~= new_leaves);
            lemma_fold_concat(m, leaves_of(m, t4, p4, s, mi, li), leaves_of(m, t4, p4, mi + 1, e, ri));
            assert(in_i32(mop(m, t4[li] as int, t4[ri] as int)));
        }
        let lv = self.tree[left_child_index];
        let rv = self.tree[right_child_index];
        let x = m.apply(lv, rv);
        self.tree.set(nav_index, x);
        proof {
            let t5 = self.tree@;
            let p5 = self.pending_updates@;
            lemma_tree_frame(m, t4, p4, t5, p5, s, mi, li);
            lemma_tree_frame(m, t4, p4, t5, p5, mi + 1, e, ri);
            lemma_val_is_fold(m, t5, p5, s, mi, li);
            lemma_val_is_fold(m, t5, p5, mi + 1, e, ri);
            assert(wf_of(m, t5, p5, s, e, ix));
            assert(p5[ix] == p1[ix]);
            assert(pend_ok(m, t5, p5, s, e, ix, None)) by {
                assert(oj(m, opt_int(p5[ix]), None) == None::<int>);
                assert(pend_ok(m, t5, p5, s, mi, li, None));
                assert(pend_ok(m, t5, p5, mi + 1, e, ri, None));
            }
            assert(leaves_of(m, t5, p5, s, e, ix) =~= new_leaves);
        }
    }

    /// The bounds side of a range update on the current state: see
    /// `update_fits`. Min- and max-trees satisfy it always
    /// (`lemma_update_fits_min_max`); a pending-free sum-tree satisfies it
    /// whenever a segment's worth of elements and replications fits
    /// (`lemma_update_fits_fresh`); with sums deferred over earlier range
    /// updates it additionally bounds their compositions, which depend on
    /// the update history, not on the model alone.
    /// No node holds a deferred update: the state right after construction,
    /// and preserved by `query` and `add`.
    pub closed spec fn pending_free(self) -> bool {
        forall|k: int|
            0 <= k < self.pending_updates@.len() ==> #[trigger] self.pending_updates@[k] is None
    }

    /// Min- and max-trees can always take a range update: their merges stay
    /// among their arguments and replication changes nothing, so every
    /// bounds condition of `update_fits_at` holds of any well-formed state.
    pub proof fn lemma_update_fits_min_max(self, i: int, j: int, val: i32)
        requires
            self.wf(),
            !(self.merge_op() is Sum),
            i <= j,
        ensures
            self.update_fits_at(i, j, val),
    {
        lemma_update_fits_min_max_rec(
            self.merge_values,
            self.tree@,
            self.pending_updates@,
            0,
            self.num_leaf as int - 1,
            0,
            None,
            i,
            j,
            val,
        );
    }

    /// A pending-free tree can take a range update whenever one segment's
    /// worth of its elements, together with the replicated update, stays
    /// within the `i32` range: `c` bounds every element of the model.
    pub proof fn lemma_update_fits_fresh(self, i: int, j: int, val: i32, c: int)
        requires
            self.wf(),
            self.pending_free(),
            i <= j,
            j < self.leaf_count(),
            c >= 0,
            forall|k: int|
                0 <= k < self.leaf_count() ==> -c <= #[trigger] self.leaves()[k] <= c,
            self.leaf_count() * (c + abs_of(val as int)) <= 0x7fff_ffff,
        ensures
            self.update_fits_at(i, j, val),
    {
        self.lemma_model();
        match self.merge_values {
            MergeOp::Sum => {
                lemma_update_fits_sum_free(
                    self.tree@,
                    self.pending_updates@,
                    0,
                    self.num_leaf as int - 1,
                    0,
                    i,
                    j,
                    val,
                    c,
                );
            },
            _ => {
                lemma_update_fits_min_max_rec(
                    self.merge_values,
                    self.tree@,
                    self.pending_updates@,
                    0,
                    self.num_leaf as int - 1,
                    0,
                    None,
                    i,
                    j,
                    val,
                );
            },
        }
    }

    /// In a pending-free tree — right after construction, or after any run
    /// of `query` and `add` calls — the slot `q` read by `get_index` stores
    /// exactly the merge of the model over the segment `seg_of` assigns to
    /// that slot: the implicit pre-order layout, node 0 covering everything.
    pub proof fn lemma_node_values(self, q: int)
        requires
            self.wf(),
            self.pending_free(),
            0 <= q < self.slot_count(),
        ensures
            seg_of(0, self.leaf_count() - 1, 0, q) matches Some(seg) && 0 <= seg.0 <= seg.1
                < self.leaf_count() && self.spec_node_value(q) as int == fold_vals(
                self.merge_op(),
                self.leaves().subrange(seg.0, seg.1 + 1),
            ),
    {
        lemma_fresh_slots(
            self.merge_values,
            self.tree@,
            self.pending_updates@,
            0,
            self.num_leaf as int - 1,
            0,
            q,
        );
    }

    pub closed spec fn update_fits_at(self, i: int, j: int, val: i32) -> bool {
        update_fits(
            self.merge_values,
            self.tree@,
            self.pending_updates@,
            0,
            self.num_leaf as int - 1,
            0,
            None,
            i,
            j,
            val,
        )
    }

    /// Range update: merge `val` into every element of `[i, j]`. Below a
    /// totally-overlapped internal node the work is deferred: the update is
    /// recorded as pending and applied when the subtree is next visited.
    pub fn range_update(&mut self, i: usize, j: usize, val: i32)
        requires
            old(self).wf(),
            i <= j,
            j < old(self).leaf_count(),
            old(self).update_fits_at(i as int, j as int, val),
        ensures
            final(self).wf(),
            final(self).leaf_count() == old(self).leaf_count(),
            final(self).merge_op() == old(self).merge_op(),
            final(self).neutral() == old(self).neutral(),
            final(self).leaves().len() == old(self).leaves().len(),
            forall|k: int|
                0 <= k < old(self).leaf_count() ==> #[trigger] final(self).leaves()[k] == (
                if i <= k <= j {
                    mop(old(self).merge_op(), old(self).leaves()[k], val as int)
                } else {
                    old(self).leaves()[k]
                }),
    {
        proof {
            self.lemma_model();
        }
        let n = self.num_leaf;
        self.range_update_rec(Range::new(i, j), Range::new(0, n - 1), val, 0, Ghost(None));
        proof {
            self.lemma_model();
        }
    }

    #[verifier::rlimit(100)]
    fn range_update_rec(
        &mut self,
        query_range: Range,
        node_segment: Range,
        val: i32,
        nav_index: usize,
        Ghost(anc): Ghost<Option<int>>,
    )
        requires
            old(self).pending_updates@.len() == old(self).tree@.len(),
            query_range.start <= query_range.end,
            node_segment.start <= node_segment.end,
            nav_index + 2 * (node_segment.end - node_segment.start) < old(self).tree@.len(),
            wf_of(
                old(self).merge_values,
                old(self).tree@,
                old(self).pending_updates@,
                node_segment.start as int,
                node_segment.end as int,
                nav_index as int,
            ),
            pend_ok(
                old(self).merge_values,
                old(self).tree@,
                old(self).pending_updates@,
                node_segment.start as int,
                node_segment.end as int,
                nav_index as int,
                anc,
            ),
            update_fits(
                old(self).merge_values,
                old(self).tree@,
                old(self).pending_updates@,
                node_segment.start as int,
                node_segment.end as int,
                nav_index as int,
                anc,
                query_range.start as int,
                query_range.end as int,
                val,
            ),
        ensures
            final(self).num_leaf == old(self).num_leaf,
            final(self).merge_values == old(self).merge_values,
            final(self).neutral_value == old(self).neutral_value,
            final(self).tree@.len() == old(self).tree@.len(),
            final(self).pending_updates@.len() == old(self).pending_updates@.len(),
            forall|k: int|
                0 <= k < old(self).tree@.len() && !(nav_index <= k <= nav_index + 2 * (
                node_segment.end - node_segment.start)) ==> final(self).tree@[k] == old(
                    self,
                ).tree@[k] && final(self).pending_updates@[k] == old(self).pending_updates@[k],
            query_range.end < node_segment.start || node_segment.end < query_range.start
                ==> *final(self) == *old(self),
            wf_of(
                final(self).merge_values,
                final(self).tree@,
                final(self).pending_updates@,
                node_segment.start as int,
                node_segment.end as int,
                nav_index as int,
            ),
            pend_ok(
                final(self).merge_values,
                final(self).tree@,
                final(self).pending_updates@,
                node_segment.start as int,
                node_segment.end as int,
                nav_index as int,
                anc,
            ),
            leaves_of(
                final(self).merge_values,
                final(self).tree@,
                final(self).pending_updates@,
                node_segment.start as int,
                node_segment.end as int,
                nav_index as int,
            ).len() == node_segment.end - node_segment.start + 1,
            forall|k: int|
                0 <= k <= node_segment.end - node_segment.start ==> #[trigger] leaves_of(
                    final(self).merge_values,
                    final(self).tree@,
                    final(self).pending_updates@,
                    node_segment.start as int,
                    node_segment.end as int,
                    nav_index as int,
                )[k] == (if query_range.start <= node_segment.start + k <= query_range.end {
                    mop(
                        old(self).merge_values,
                        leaves_of(
                            old(self).merge_values,
                            old(self).tree@,
                            old(self).pending_updates@,
                            node_segment.start as int,
                            node_segment.end as int,
                            nav_index as int,
                        )[k],
                        val as int,
                    )
                } else {
                    leaves_of(
                        old(self).merge_values,
                        old(self).tree@,
                        old(self).pending_updates@,
                        node_segment.start as int,
                        node_segment.end as int,
                        nav_index as int,
                    )[k]
                }),
            !(query_range.end < node_segment.start || node_segment.end < query_range.start)
                ==> val_of(
                final(self).merge_values,
                final(self).tree@,
                final(self).pending_updates@,
                node_segment.start as int,
                node_segment.end as int,
                nav_index as int,
            ) == mop(
                old(self).merge_values,
                val_of(
                    old(self).merge_values,
                    old(self).tree@,
                    old(self).pending_updates@,
                    node_segment.start as int,
                    node_segment.end as int,
                    nav_index as int,
                ),
                rep_val(
                    old(self).merge_values,
                    val as int,
                    (if query_range.end as int <= node_segment.end as int {
                        query_range.end as int
                    } else {
                        node_segment.end as int
                    }) - (if query_range.start as int >= node_segment.start as int {
                        query_range.start as int
                    } else {
                        node_segment.start as int
                    }) + 1,
                ),
            ),
        decreases node_segment.end - node_segment.start,
    {
        let ghost s = node_segment.start as int;
        let ghost e = node_segment.end as int;
        let ghost ix = nav_index as int;
        let ghost qs = query_range.start as int;
        let ghost qe = query_range.end as int;
        let m = self.merge_values;
        let total = self.tree.len();
        assert(nav_index + 2 * (node_segment.end - node_segment.start) < total);
        let ghost t0 = self.tree@;
        let ghost p0 = self.pending_updates@;
        let ghost leaves0 = leaves_of(m, t0, p0, s, e, ix);
        proof {
            lemma_val_is_fold(m, t0, p0, s, e, ix);
        }
        if node_segment.no_overlap(query_range) {
            return ;
        }
        let ghost lo: int = if qs >= s { qs } else { s };
        let ghost hi: int = if qe <= e { qe } else { e };
        if query_range.contains(node_segment) {
            // total overlap
            if node_segment.start == node_segment.end {
                // leaf: apply directly and permanently
                let cur = self.tree[nav_index];
                let x = m.apply(cur, val);
                self.tree.set(nav_index, x);
                proof {
                    let t1 = self.tree@;
                    assert(leaves_of(m, t1, p0, s, e, ix) == pend_map(
                        m,
                        p0[ix],
                        seq![x as int],
                    ));
                    assert(leaves0 == pend_map(m, p0[ix], seq![cur as int]));
                    match p0[ix] {
                        Some(w) => {
                            assert(leaves_of(m, t1, p0, s, e, ix)[0] == mop(
                                m,
                                mop(m, cur as int, val as int),
                                w as int,
                            ));
                            assert(leaves0[0] == mop(m, cur as int, w as int));
                            assert(mop(m, mop(m, cur as int, val as int), w as int) == mop(
                                m,
                                mop(m, cur as int, w as int),
                                val as int,
                            ));
                        },
                        None => {},
                    }
                }
                return ;
            }
            // internal: record the update as pending for the next visit
            let q = self.pending_updates[nav_index];
            proof {
                assert(pend_grow(m, t0, p0, s, e, ix, anc, val));
            }
            let w0 = match q {
                Some(w) => m.apply(val, w),
                None => val,
            };
            self.pending_updates.set(nav_index, Some(w0));
            proof {
                let t1 = self.tree@;
                let p1 = self.pending_updates@;
                let pn = p0.update(ix, None::<i32>);
                lemma_tree_split(m, t0, p0, s, e, ix);
                lemma_tree_split(m, t0, p1, s, e, ix);
                assert(p1.update(ix, None::<i32>) =~= pn);
                let base = leaves_of(m, t0, pn, s, e, ix);
                assert(leaves_of(m, t0, p1, s, e, ix) == pend_map(m, Some(w0), base));
                assert(leaves0 == pend_map(m, p0[ix], base));
                lemma_val_is_fold(m, t0, p1, s, e, ix);
                // pointwise: applying the joined update equals applying the
                // old pending and then val
                assert forall|k: int| 0 <= k <= e - s implies #[trigger] leaves_of(
                    m,
                    t0,
                    p1,
                    s,
                    e,
                    ix,
                )[k] == mop(m, leaves0[k], val as int) by {
                    lemma_val_is_fold(m, t0, pn, s, e, ix);
                    match p0[ix] {
                        Some(w) => {
                            assert(w0 as int == mop(m, val as int, w as int));
                            assert(leaves_of(m, t0, p1, s, e, ix)[k] == mop(
                                m,
                                base[k],
                                mop(m, val as int, w as int),
                            ));
                            assert(leaves0[k] == mop(m, base[k], w as int));
                        },
                        None => {},
                    }
                }
                // the node's aggregate accounts for the whole recorded update
                assert(val_of(m, t0, p1, s, e, ix) == mop(
                    m,
                    val_of(m, t0, p0, s, e, ix),
                    rep_val(m, val as int, e - s + 1),
                )) by {
                    match p0[ix] {
                        Some(w) => {
                            lemma_rep_join(m, val as int, w as int, e - s + 1);
                            lemma_mop_assoc(
                                m,
                                t0[ix] as int,
                                rep_val(m, val as int, e - s + 1),
                                rep_val(m, w as int, e - s + 1),
                            );
                            lemma_mop_comm(
                                m,
                                rep_val(m, val as int, e - s + 1),
                                rep_val(m, w as int, e - s + 1),
                            );
                            lemma_mop_assoc(
                                m,
                                t0[ix] as int,
                                rep_val(m, w as int, e - s + 1),
                                rep_val(m, val as int, e - s + 1),
                            );
                        },
                        None => {},
                    }
                }
                // bounds discipline with the grown pending
                assert(pend_ok(m, t1, p1, s, e, ix, anc)) by {
                    let slot_grown = oj(m, opt_int(p0[ix]), Some(val as int));
                    let effv = oj(m, slot_grown, anc);
                    assert(opt_int(p1[ix]) == slot_grown) by {
                        match p0[ix] {
                            Some(w) => {
                                assert(w0 as int == mop(m, val as int, w as int));
                                assert(mop(m, val as int, w as int) == mop(m, w as int, val as int));
                            },
                            None => {},
                        }
                    }
                    assert(oj(m, opt_int(p1[ix]), anc) == effv);
                    let m2 = midp(s, e);
                    lemma_tree_frame(m, t0, p0, t1, p1, s, m2, ix + 1);
                    lemma_tree_frame(m, t0, p0, t1, p1, m2 + 1, e, ix + 2 * (m2 - s + 1));
                    assert(pend_ok(m, t0, p0, s, m2, ix + 1, effv));
                    assert(pend_ok(m, t1, p1, s, m2, ix + 1, effv));
                    assert(pend_ok(m, t0, p0, m2 + 1, e, ix + 2 * (m2 - s + 1), effv));
                    assert(pend_ok(m, t1, p1, m2 + 1, e, ix + 2 * (m2 - s + 1), effv));
                }
            }
            return ;
        }
        // partial overlap: pre-apply the replicated update here, then descend
        let query_segment = query_range.intersect(node_segment);
        let intersection = query_segment.size();
        assert(intersection as int == hi - lo + 1);
        let ghost is_ = hi - lo + 1;
        let repeated_val = rep_apply(m, val, intersection);
        let cur = self.tree[nav_index];
        let x = m.apply(repeated_val, cur);
        self.tree.set(nav_index, x);
        let ghost t1 = self.tree@;
        let middle = node_segment.middle();
        let left_child_index = nav_index + 1;
        let right_child_index = nav_index + 2 * (middle - node_segment.start + 1);
        let ghost mi = middle as int;
        let ghost li = left_child_index as int;
        let ghost ri = right_child_index as int;
        let ghost eff = oj(m, opt_int(p0[ix]), anc);
        let ghost left_leaves = leaves_of(m, t0, p0, s, mi, li);
        let ghost right_leaves = leaves_of(m, t0, p0, mi + 1, e, ri);
        let ghost lo_l: int = if qs >= s { qs } else { s };
        let ghost hi_l: int = if qe <= mi { qe } else { mi };
        let ghost lo_r: int = if qs >= mi + 1 { qs } else { mi + 1 };
        let ghost hi_r: int = if qe <= e { qe } else { e };
        proof {
            lemma_val_is_fold(m, t0, p0, s, mi, li);
            lemma_val_is_fold(m, t0, p0, mi + 1, e, ri);
            // the write at the root slot leaves both child models alone
            lemma_tree_frame(m, t0, p0, t1, p0, s, mi, li);
            lemma_tree_frame(m, t0, p0, t1, p0, mi + 1, e, ri);
            lemma_update_fits_frame(m, t0, p0, t1, p0, s, mi, li, eff, qs, qe, val);
            lemma_update_fits_frame(m, t0, p0, t1, p0, mi + 1, e, ri, eff, qs, qe, val);
        }
        self.range_update_rec(
            query_range,
            Range::new(node_segment.start, middle),
            val,
            left_child_index,
            Ghost(eff),
        );
        let ghost t2 = self.tree@;
        let ghost p2 = self.pending_updates@;
        proof {
            lemma_tree_frame(m, t1, p0, t2, p2, mi + 1, e, ri);
            lemma_update_fits_frame(m, t1, p0, t2, p2, mi + 1, e, ri, eff, qs, qe, val);
        }
        self.range_update_rec(
            query_range,
            Range::new(middle + 1, node_segment.end),
            val,
            right_child_index,
            Ghost(eff),
        );
        let ghost t3 = self.tree@;
        let ghost p3 = self.pending_updates@;
        proof {
            lemma_tree_frame(m, t2, p2, t3, p3, s, mi, li);
            lemma_val_is_fold(m, t3, p3, s, mi, li);
            lemma_val_is_fold(m, t3, p3, mi + 1, e, ri);
            let svl = val_of(m, t0, p0, s, mi, li);
            let svr = val_of(m, t0, p0, mi + 1, e, ri);
            let svl3 = val_of(m, t3, p3, s, mi, li);
            let svr3 = val_of(m, t3, p3, mi + 1, e, ri);
            let vv = val as int;
            // the new root store equals the merge of the children's new
            // aggregates: each absorbed its share of the replication
            assert(t3[ix] == t1[ix] && p3[ix] == p0[ix]);
            assert(x as int == mop(m, rep_val(m, vv, is_), t0[ix] as int));
            if qe < s || mi < qs {
                // only the right child overlaps
                assert(svl3 == svl);
                assert(svr3 == mop(m, svr, rep_val(m, vv, hi_r - lo_r + 1)));
                assert(hi_r - lo_r + 1 == is_);
                lemma_mop_assoc(m, svl, svr, rep_val(m, vv, is_));
                lemma_mop_comm(m, rep_val(m, vv, is_), t0[ix] as int);
            } else if qe < mi + 1 || e < qs {
                // only the left child overlaps
                assert(svr3 == svr);
                assert(svl3 == mop(m, svl, rep_val(m, vv, hi_l - lo_l + 1)));
                assert(hi_l - lo_l + 1 == is_);
                lemma_mop_assoc(m, svl, rep_val(m, vv, is_), svr);
                lemma_mop_comm(m, rep_val(m, vv, is_), svr);
                lemma_mop_assoc(m, svl, svr, rep_val(m, vv, is_));
                lemma_mop_comm(m, rep_val(m, vv, is_), t0[ix] as int);
            } else {
                // both children overlap
                let il = hi_l - lo_l + 1;
                let ir = hi_r - lo_r + 1;
                assert(il + ir == is_ && il >= 1 && ir >= 1);
                assert(svl3 == mop(m, svl, rep_val(m, vv, il)));
                assert(svr3 == mop(m, svr, rep_val(m, vv, ir)));
                let rl = rep_val(m, vv, il);
                let rr = rep_val(m, vv, ir);
                lemma_rep_split(m, vv, il, ir);
                lemma_mop_assoc(m, mop(m, svl, rl), svr, rr);
                lemma_mop_assoc(m, svl, rl, svr);
                lemma_mop_comm(m, rl, svr);
                lemma_mop_assoc(m, svl, svr, rl);
                lemma_mop_assoc(m, mop(m, svl, svr), rl, rr);
                lemma_mop_comm(m, rep_val(m, vv, is_), t0[ix] as int);
            }
            assert(t3[ix] as int == mop(m, svl3, svr3));
            assert(wf_of(m, t3, p3, s, e, ix));
            // aggregate of this node moved by the replicated update
            assert(val_of(m, t3, p3, s, e, ix) == mop(
                m,
                val_of(m, t0, p0, s, e, ix),
                rep_val(m, vv, is_),
            )) by {
                match p0[ix] {
                    Some(w) => {
                        let size = e - s + 1;
                        lemma_mop_comm(m, rep_val(m, vv, is_), t0[ix] as int);
                        lemma_mop_assoc(m, t0[ix] as int, rep_val(m, vv, is_), rep_val(m, w as int, size));
                        lemma_mop_comm(m, rep_val(m, vv, is_), rep_val(m, w as int, size));
                        lemma_mop_assoc(m, t0[ix] as int, rep_val(m, w as int, size), rep_val(m, vv, is_));
                    },
                    None => {
                        lemma_mop_comm(m, rep_val(m, vv, is_), t0[ix] as int);
                    },
                }
            }
            // bounds discipline is preserved: this node's effective pending
            // is unchanged and the children were handled recursively
            assert(pend_ok(m, t3, p3, s, e, ix, anc)) by {
                assert(oj(m, opt_int(p3[ix]), anc) == eff);
                assert(pend_ok(m, t3, p3, s, mi, li, eff));
                assert(pend_ok(m, t3, p3, mi + 1, e, ri, eff));
                match eff {
                    Some(w) => {
                        assert(in_i32(mop(m, t3[ix] as int, rep_val(m, w, e - s + 1)))) by {
                            lemma_mop_comm(m, rep_val(m, vv, is_), t0[ix] as int);
                        }
                    },
                    None => {},
                }
            }
            // the element values: updated inside the range, kept outside
            assert(leaves_of(m, t3, p3, s, e, ix).len() == e - s + 1);
            assert forall|k: int| 0 <= k <= e - s implies #[trigger] leaves_of(
                m,
                t3,
                p3,
                s,
                e,
                ix,
            )[k] == (if qs <= s + k <= qe {
                mop(m, leaves0[k], vv)
            } else {
                leaves0[k]
            }) by {
                let ll3 = leaves_of(m, t3, p3, s, mi, li);
                let rl3 = leaves_of(m, t3, p3, mi + 1, e, ri);
                let pn3 = p3.update(ix, None::<i32>);
                let pn0 = p0.update(ix, None::<i32>);
                lemma_tree_split(m, t3, p3, s, e, ix);
                lemma_tree_split(m, t0, p0, s, e, ix);
                lemma_tree_frame(m, t3, pn3, t3, p3, s, mi, li);
                lemma_tree_frame(m, t3, pn3, t3, p3, mi + 1, e, ri);
                lemma_tree_frame(m, t0, pn0, t0, p0, s, mi, li);
                lemma_tree_frame(m, t0, pn0, t0, p0, mi + 1, e, ri);
                assert(leaves_of(m, t3, pn3, s, e, ix) == ll3 + rl3);
                assert(leaves_of(m, t0, pn0, s, e, ix) == left_leaves + right_leaves);
                if k <= mi - s {
                    assert(ll3[k] == (if qs <= s + k <= qe {
                        mop(m, left_leaves[k], vv)
                    } else {
                        left_leaves[k]
                    }));
                } else {
                    assert(rl3[k - (mi - s + 1)] == (if qs <= s + k <= qe {
                        mop(m, right_leaves[k - (mi - s + 1)], vv)
                    } else {
                        right_leaves[k - (mi - s + 1)]
                    }));
                    assert(mi + 1 + (k - (mi - s + 1)) == s + k);
                }
                match p3[ix] {
                    Some(w) => {
                        assert(leaves_of(m, t3, p3, s, e, ix)[k] == mop(
                            m,
                            (ll3 + rl3)[k],
                            w as int,
                        ));
                        assert(leaves0[k] == mop(m, (left_leaves + right_leaves)[k], w as int));
                        if qs <= s + k <= qe {
                            lemma_mop_assoc(m, (left_leaves + right_leaves)[k], vv, w as int);
                            lemma_mop_comm(m, vv, w as int);
                            lemma_mop_assoc(m, (left_leaves + right_leaves)[k], w as int, vv);
                        }
                    },
                    None => {},
                }
            }
        }
    }
}

pub open spec fn no_pend(n: int) -> Seq<Option<i32>> {
    Seq::new(n as nat, |i: int| None)
}

/// `v` merged with itself `k` times, computed by repeated merging, as the
/// replicate-by-size flush policy asks.
fn rep_apply(m: MergeOp, v: i32, k: usize) -> (r: i32)
    requires
        1 <= k,
        forall|j: int| 1 <= j <= k ==> in_i32(#[trigger] rep_val(m, v as int, j)),
    ensures
        r as int == rep_val(m, v as int, k as int),
{
    let mut acc = v;
    let mut i: usize = 1;
    while i < k
        invariant
            1 <= i <= k,
            acc as int == rep_val(m, v as int, i as int),
            forall|j: int| 1 <= j <= k ==> in_i32(#[trigger] rep_val(m, v as int, j)),
        decreases k - i,
    {
        assert(rep_val(m, v as int, i as int + 1) == mop(m, rep_val(m, v as int, i as int), v as int));
        acc = m.apply(acc, v);
        i = i + 1;
    }
    acc
}

/// A vector of `n` copies of `x`.
fn filled_i32(n: usize, x: i32) -> (v: Vec<i32>)
    ensures
        v@ == Seq::new(n as nat, |i: int| x),
{
    let mut v: Vec<i32> = Vec::new();
    let mut i: usize = 0;
    while i < n
        invariant
            i <= n,
            v@ =~= Seq::new(i as nat, |k: int| x),
        decreases n - i,
    {
        v.push(x);
        i = i + 1;
    }
    proof {
        assert(v@ =~= Seq::new(n as nat, |i: int| x));
    }
    v
}

/// A vector of `n` empty pending slots.
fn filled_none(n: usize) -> (v: Vec<Option<i32>>)
    ensures
        v@ == Seq::new(n as nat, |i: int| None::<i32>),
{
    let mut v: Vec<Option<i32>> = Vec::new();
    let mut i: usize = 0;
    while i < n
        invariant
            i <= n,
            v@ =~= Seq::new(i as nat, |k: int| None::<i32>),
        decreases n - i,
    {
        v.push(None);
        i = i + 1;
    }
    proof {
        assert(v@ =~= Seq::new(n as nat, |i: int| None::<i32>));
    }
    v
}

} // verus!
