use vstd::prelude::*;

verus! {

/// One node of an arena-allocated binary tree: a key and the indices of the
/// children, if any.
pub struct Node {
    pub key: i32,
    pub id_left: Option<usize>,
    pub id_right: Option<usize>,
}

impl Node {
    fn new(key: i32) -> (n: Node)
        ensures
            n.key == key,
            n.id_left is None,
            n.id_right is None,
    {
        Self { key, id_left: None, id_right: None }
    }
}

/// Children always point at later-created nodes, so every recursive descent
/// moves strictly towards the end of the arena.
pub open spec fn arena_wf(nodes: Seq<Node>) -> bool {
    forall|i: int|
        0 <= i < nodes.len() ==> {
            &&& (#[trigger] nodes[i].id_left matches Some(l) ==> i < l < nodes.len())
            &&& (nodes[i].id_right matches Some(r) ==> i < r < nodes.len())
        }
}

/// An arena-allocated binary tree with node 0 as the root. New nodes join
/// as the left or right child of an existing node.
pub struct Tree {
    pub nodes: Vec<Node>,
}

impl Tree {
    pub open spec fn wf(self) -> bool {
        &&& self.nodes@.len() >= 1
        &&& arena_wf(self.nodes@)
    }

    pub fn with_root(key: i32) -> (t: Tree)
        ensures
            t.wf(),
            t.nodes@.len() == 1,
            t.nodes@[0].key == key,
            t.nodes@[0].id_left is None,
            t.nodes@[0].id_right is None,
    {
        Self { nodes: vec![Node::new(key)] }
    }

    pub fn add_left_child(&mut self, parent_id: usize, key: i32) -> (child_id: usize)
        requires
            old(self).wf(),
            parent_id < old(self).nodes@.len(),
            old(self).nodes@[parent_id as int].id_left is None,
            old(self).nodes@.len() < usize::MAX,
        ensures
            final(self).wf(),
            child_id == old(self).nodes@.len(),
            final(self).nodes@.len() == old(self).nodes@.len() + 1,
            final(self).nodes@[child_id as int].key == key,
            final(self).nodes@[child_id as int].id_left is None,
            final(self).nodes@[child_id as int].id_right is None,
            final(self).nodes@[parent_id as int].id_left == Some(child_id),
            final(self).nodes@[parent_id as int].id_right == old(
                self,
            ).nodes@[parent_id as int].id_right,
            final(self).nodes@[parent_id as int].key == old(self).nodes@[parent_id as int].key,
            forall|k: int|
                0 <= k < old(self).nodes@.len() && k != parent_id ==> final(self).nodes@[k] == old(
                    self,
                ).nodes@[k],
    {
        self.add_node(parent_id, key, true)
    }

    pub fn add_right_child(&mut self, parent_id: usize, key: i32) -> (child_id: usize)
        requires
            old(self).wf(),
            parent_id < old(self).nodes@.len(),
            old(self).nodes@[parent_id as int].id_right is None,
            old(self).nodes@.len() < usize::MAX,
        ensures
            final(self).wf(),
            child_id == old(self).nodes@.len(),
            final(self).nodes@.len() == old(self).nodes@.len() + 1,
            final(self).nodes@[child_id as int].key == key,
            final(self).nodes@[child_id as int].id_left is None,
            final(self).nodes@[child_id as int].id_right is None,
            final(self).nodes@[parent_id as int].id_right == Some(child_id),
            final(self).nodes@[parent_id as int].id_left == old(
                self,
            ).nodes@[parent_id as int].id_left,
            final(self).nodes@[parent_id as int].key == old(self).nodes@[parent_id as int].key,
            forall|k: int|
                0 <= k < old(self).nodes@.len() && k != parent_id ==> final(self).nodes@[k] == old(
                    self,
                ).nodes@[k],
    {
        self.add_node(parent_id, key, false)
    }

    /// Adds a child to the node with `parent_id` and returns the id of the
    /// new node. The new node has the specified `key` and becomes the left
    /// child iff `is_left`, the right child otherwise. The parent must exist
    /// and must not have that child set yet.
    pub fn add_node(&mut self, parent_id: usize, key: i32, is_left: bool) -> (child_id: usize)
        requires
            old(self).wf(),
            parent_id < old(self).nodes@.len(),
            is_left ==> old(self).nodes@[parent_id as int].id_left is None,
            !is_left ==> old(self).nodes@[parent_id as int].id_right is None,
            old(self).nodes@.len() < usize::MAX,
        ensures
            final(self).wf(),
            child_id == old(self).nodes@.len(),
            final(self).nodes@.len() == old(self).nodes@.len() + 1,
            final(self).nodes@[child_id as int].key == key,
            final(self).nodes@[child_id as int].id_left is None,
            final(self).nodes@[child_id as int].id_right is None,
            is_left ==> final(self).nodes@[parent_id as int] == (Node {
                id_left: Some(child_id),
                ..old(self).nodes@[parent_id as int]
            }),
            !is_left ==> final(self).nodes@[parent_id as int] == (Node {
                id_right: Some(child_id),
                ..old(self).nodes@[parent_id as int]
            }),
            forall|k: int|
                0 <= k < old(self).nodes@.len() && k != parent_id ==> final(self).nodes@[k] == old(
                    self,
                ).nodes@[k],
    {
        let child_id = self.nodes.len();
        self.nodes.push(Node::new(key));
        let parent = &self.nodes[parent_id];
        let updated = if is_left {
            Node { key: parent.key, id_left: Some(child_id), id_right: parent.id_right }
        } else {
            Node { key: parent.key, id_left: parent.id_left, id_right: Some(child_id) }
        };
        self.nodes.set(parent_id, updated);
        child_id
    }
}

/// The binary-search-tree property of the subtree rooted at `id`, with all
/// keys confined to `[lo, hi)`.
pub open spec fn spec_is_bst(nodes: Seq<Node>, id: Option<usize>, lo: int, hi: int) -> bool
    decreases nodes.len() - (match id {
        Some(i) => i as int,
        None => nodes.len() as int,
    }),
    when arena_wf(nodes) && (id matches Some(i) ==> i < nodes.len())
{
    match id {
        None => true,
        Some(i) => {
            &&& lo <= nodes[i as int].key < hi
            &&& spec_is_bst(nodes, nodes[i as int].id_left, lo, nodes[i as int].key as int)
            &&& spec_is_bst(nodes, nodes[i as int].id_right, nodes[i as int].key as int, hi)
        },
    }
}

/// Is the whole tree a binary search tree? Keys left of a node are smaller,
/// keys to the right are at least as large, recursively with the window
/// every ancestor imposes.
pub fn is_bst(tree: &Tree) -> (r: bool)
    requires
        tree.wf(),
    ensures
        r == spec_is_bst(tree.nodes@, Some(0), i32::MIN as int, i32::MAX as int),
{
    rec_is_bst(tree, Some(0), i32::MIN, i32::MAX)
}

pub fn rec_is_bst(tree: &Tree, id: Option<usize>, l_range: i32, r_range: i32) -> (r: bool)
    requires
        tree.wf(),
        id matches Some(i) ==> i < tree.nodes@.len(),
    ensures
        r == spec_is_bst(tree.nodes@, id, l_range as int, r_range as int),
    decreases tree.nodes@.len() - (match id {
        Some(i) => i as int,
        None => tree.nodes@.len() as int,
    }),
{
    match id {
        None => true,
        Some(id) => {
            let c_node_key = tree.nodes[id].key;
            let c_left = tree.nodes[id].id_left;
            let c_right = tree.nodes[id].id_right;
            if !(c_node_key >= l_range && c_node_key < r_range) {
                return false;
            }
            rec_is_bst(tree, c_left, l_range, c_node_key) && rec_is_bst(
                tree,
                c_right,
                c_node_key,
                r_range,
            )
        },
    }
}

/// Outcome of the max-path-sum recursion at one subtree: the best sum of a
/// path between two leaves inside it, if a two-leaf path exists, and the
/// best sum of a path from the subtree's root down to one of its leaves.
pub open spec fn spec_mps(nodes: Seq<Node>, id: int) -> (Option<int>, int)
    decreases nodes.len() - id,
    when arena_wf(nodes) && 0 <= id < nodes.len()
{
    let n = nodes[id];
    match (n.id_left, n.id_right) {
        (None, None) => (None, n.key as int),
        (Some(l), None) => {
            let (lb, lp) = spec_mps(nodes, l as int);
            (lb, n.key + lp)
        },
        (None, Some(r)) => {
            let (rb, rp) = spec_mps(nodes, r as int);
            (rb, n.key + rp)
        },
        (Some(l), Some(r)) => {
            let (lb, lp) = spec_mps(nodes, l as int);
            let (rb, rp) = spec_mps(nodes, r as int);
            let down = n.key + (if lp >= rp {
                lp
            } else {
                rp
            });
            let through = lp + rp + n.key;
            let sub = opt_max(lb, rb);
            (Some(opt_max2(through, sub)), down)
        },
    }
}

pub open spec fn opt_max(a: Option<int>, b: Option<int>) -> Option<int> {
    match (a, b) {
        (Some(x), Some(y)) => Some(if x >= y {
            x
        } else {
            y
        }),
        (Some(x), None) => Some(x),
        (None, y) => y,
    }
}

pub open spec fn opt_max2(x: int, a: Option<int>) -> int {
    match a {
        Some(y) => if x >= y {
            x
        } else {
            y
        },
        None => x,
    }
}

proof fn lemma_mps_bounds(nodes: Seq<Node>, id: int)
    requires
        arena_wf(nodes),
        0 <= id < nodes.len(),
    ensures
        -((nodes.len() - id) * 0x8000_0000) <= spec_mps(nodes, id).1 <= (nodes.len() - id)
            * 0x8000_0000,
        spec_mps(nodes, id).0 matches Some(v) ==> -((nodes.len() - id) * 0x1_0000_0000) <= v <= (
        nodes.len() - id) * 0x1_0000_0000,
    decreases nodes.len() - id,
{
    let n = nodes[id];
    if n.id_left is Some {
        lemma_mps_bounds(nodes, n.id_left->0 as int);
    }
    if n.id_right is Some {
        lemma_mps_bounds(nodes, n.id_right->0 as int);
    }
}

/// The sum of the best simple path connecting two leaves, or `i32::MIN`
/// when no such path exists (fewer than two leaves).
pub fn max_path_sum(tree: &Tree) -> (r: i32)
    requires
        tree.wf(),
        tree.nodes@.len() <= 0x1000_0000,
        spec_mps(tree.nodes@, 0).0 matches Some(v) ==> i32::MIN < v <= i32::MAX,
    ensures
        spec_mps(tree.nodes@, 0).0 is None ==> r == i32::MIN,
        spec_mps(tree.nodes@, 0).0 matches Some(v) ==> r as int == v,
{
    let (between_leaves, _) = rec_max_path_sum(tree, Some(0));
    proof {
        lemma_mps_bounds(tree.nodes@, 0);
    }
    if between_leaves <= i32::MIN as i64 {
        i32::MIN
    } else {
        between_leaves as i32
    }
}

/// Returns the best two-leaf path sum of the subtree (`i64::MIN` standing
/// for "no such path") and the best root-to-leaf path sum.
pub fn rec_max_path_sum(tree: &Tree, id: Option<usize>) -> (r: (i64, i64))
    requires
        tree.wf(),
        tree.nodes@.len() <= 0x1000_0000,
        id matches Some(i) ==> i < tree.nodes@.len(),
    ensures
        id is None ==> r == (i64::MIN, i64::MIN),
        id matches Some(i) ==> {
            &&& (match spec_mps(tree.nodes@, i as int).0 {
                Some(v) => r.0 == v,
                None => r.0 == i64::MIN,
            })
            &&& r.1 == spec_mps(tree.nodes@, i as int).1
        },
    decreases tree.nodes@.len() - (match id {
        Some(i) => i as int,
        None => tree.nodes@.len() as int,
    }),
{
    let id = match id {
        None => {
            return (i64::MIN, i64::MIN);
        },
        Some(id) => id,
    };
    let key = tree.nodes[id].key;
    let c_left = tree.nodes[id].id_left;
    let c_right = tree.nodes[id].id_right;
    let (l_max, l_max_path) = rec_max_path_sum(tree, c_left);
    let (r_max, r_max_path) = rec_max_path_sum(tree, c_right);
    proof {
        match c_left {
            Some(l) => lemma_mps_bounds(tree.nodes@, l as int),
            None => (),
        }
        match c_right {
            Some(r) => lemma_mps_bounds(tree.nodes@, r as int),
            None => (),
        }
    }
    let sub_tree_max = if l_max >= r_max {
        l_max
    } else {
        r_max
    };
    match (c_left.is_some(), c_right.is_some()) {
        (true, true) => {
            // a path between two leaves passes through this node
            let best_down = key as i64 + (if l_max_path >= r_max_path {
                l_max_path
            } else {
                r_max_path
            });
            let joined = l_max_path + r_max_path + key as i64;
            let through = if sub_tree_max >= joined {
                sub_tree_max
            } else {
                joined
            };
            (through, best_down)
        },
        (true, false) => (sub_tree_max, key as i64 + l_max_path),
        (false, true) => (sub_tree_max, key as i64 + r_max_path),
        (false, false) => (sub_tree_max, key as i64),
    }
}

} // verus!
