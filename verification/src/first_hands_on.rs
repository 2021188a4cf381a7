use vstd::prelude::*;

verus! {

/// One node of an arena-allocated binary tree over `u32` keys.
pub struct Node {
    pub key: u32,
    pub id_left: Option<usize>,
    pub id_right: Option<usize>,
}

impl Node {
    fn new(key: u32) -> (n: Node)
        ensures
            n.key == key,
            n.id_left is None,
            n.id_right is None,
    {
        Self { key, id_left: None, id_right: None }
    }
}

/// Children always point at later-created nodes.
pub open spec fn arena_wf(nodes: Seq<Node>) -> bool {
    forall|i: int|
        0 <= i < nodes.len() ==> {
            &&& (#[trigger] nodes[i].id_left matches Some(l) ==> i < l < nodes.len())
            &&& (nodes[i].id_right matches Some(r) ==> i < r < nodes.len())
        }
}

/// An arena-allocated binary tree with node 0 as the root.
pub struct Tree {
    pub nodes: Vec<Node>,
}

/// The bottom-up check at one subtree: whether it is a search tree, and the
/// smallest and largest key in it (over an empty subtree: the neutral pair).
pub open spec fn spec_check(nodes: Seq<Node>, id: Option<usize>) -> (bool, int, int)
    decreases nodes.len() - (match id {
        Some(i) => i as int,
        None => nodes.len() as int,
    }),
    when arena_wf(nodes) && (id matches Some(i) ==> i < nodes.len())
{
    match id {
        None => (true, u32::MAX as int, u32::MIN as int),
        Some(i) => {
            let key = nodes[i as int].key as int;
            let l = spec_check(nodes, nodes[i as int].id_left);
            let r = spec_check(nodes, nodes[i as int].id_right);
            let ok = l.0 && r.0 && key >= l.2 && key < r.1;
            (
                ok,
                if key <= l.1 && key <= r.1 {
                    key
                } else if l.1 <= r.1 {
                    l.1
                } else {
                    r.1
                },
                if key >= l.2 && key >= r.2 {
                    key
                } else if l.2 >= r.2 {
                    l.2
                } else {
                    r.2
                },
            )
        },
    }
}

impl Tree {
    pub open spec fn wf(self) -> bool {
        &&& self.nodes@.len() >= 1
        &&& arena_wf(self.nodes@)
    }

    pub open spec fn node_count(self) -> int {
        self.nodes@.len() as int
    }

    pub open spec fn spec_nodes(self) -> Seq<Node> {
        self.nodes@
    }

    pub fn with_root(key: u32) -> (t: Tree)
        ensures
            t.wf(),
            t.node_count() == 1,
    {
        Self { nodes: vec![Node::new(key)] }
    }

    pub fn add_left_child(&mut self, parent_id: usize, key: u32) -> (child_id: usize)
        requires
            old(self).wf(),
            parent_id < old(self).node_count(),
            old(self).spec_nodes()[parent_id as int].id_left is None,
            old(self).node_count() < usize::MAX,
        ensures
            final(self).wf(),
            child_id == old(self).node_count(),
            final(self).node_count() == old(self).node_count() + 1,
    {
        self.add_node(parent_id, key, true)
    }

    pub fn add_right_child(&mut self, parent_id: usize, key: u32) -> (child_id: usize)
        requires
            old(self).wf(),
            parent_id < old(self).node_count(),
            old(self).spec_nodes()[parent_id as int].id_right is None,
            old(self).node_count() < usize::MAX,
        ensures
            final(self).wf(),
            child_id == old(self).node_count(),
            final(self).node_count() == old(self).node_count() + 1,
    {
        self.add_node(parent_id, key, false)
    }

    /// Adds a child under `parent_id`, on the left iff `is_left`, and
    /// returns the id of the new node. The parent must exist and must not
    /// have that child set yet.
    pub fn add_node(&mut self, parent_id: usize, key: u32, is_left: bool) -> (child_id: usize)
        requires
            old(self).wf(),
            parent_id < old(self).node_count(),
            is_left ==> old(self).spec_nodes()[parent_id as int].id_left is None,
            !is_left ==> old(self).spec_nodes()[parent_id as int].id_right is None,
            old(self).node_count() < usize::MAX,
        ensures
            final(self).wf(),
            child_id == old(self).node_count(),
            final(self).node_count() == old(self).node_count() + 1,
            final(self).spec_nodes()[child_id as int].key == key,
            is_left ==> final(self).spec_nodes()[parent_id as int] == (Node {
                id_left: Some(child_id),
                ..old(self).spec_nodes()[parent_id as int]
            }),
            !is_left ==> final(self).spec_nodes()[parent_id as int] == (Node {
                id_right: Some(child_id),
                ..old(self).spec_nodes()[parent_id as int]
            }),
            forall|k: int|
                0 <= k < old(self).node_count() && k != parent_id ==> final(self).spec_nodes()[k]
                    == old(self).spec_nodes()[k],
    {
        let child_id = self.nodes.len();
        self.nodes.push(Node::new(key));
        let parent = &self.nodes[parent_id];
        let updated = if is_left {
            Node { key: parent.key, id_left: Some(child_id), id_right: parent.id_right }
        } else {
            Node { key: parent.key, id_left: parent.id_left, id_right: Some(child_id) }
        };
        self.nodes.set(parent_id, updated);
        child_id
    }
}

/// Is the tree a binary search tree? Decided bottom-up from each subtree's
/// smallest and largest key.
pub fn is_bst(tree: &Tree) -> (r: bool)
    requires
        tree.wf(),
    ensures
        r == spec_check(tree.spec_nodes(), Some(0)).0,
{
    let (ok, _, _) = rec_is_bst(tree, Some(0));
    ok
}

pub fn rec_is_bst(tree: &Tree, id: Option<usize>) -> (r: (bool, u32, u32))
    requires
        tree.wf(),
        id matches Some(i) ==> i < tree.spec_nodes().len(),
    ensures
        r.0 == spec_check(tree.spec_nodes(), id).0,
        r.1 as int == spec_check(tree.spec_nodes(), id).1,
        r.2 as int == spec_check(tree.spec_nodes(), id).2,
    decreases tree.spec_nodes().len() - (match id {
        Some(i) => i as int,
        None => tree.spec_nodes().len() as int,
    }),
{
    match id {
        None => (true, u32::MAX, u32::MIN),
        Some(id) => {
            let key = tree.nodes[id].key;
            let c_left = tree.nodes[id].id_left;
            let c_right = tree.nodes[id].id_right;
            let (l_ok, l_min, l_max) = rec_is_bst(tree, c_left);
            let (r_ok, r_min, r_max) = rec_is_bst(tree, c_right);
            let ok = l_ok && r_ok && key >= l_max && key < r_min;
            let min_lr = if l_min <= r_min {
                l_min
            } else {
                r_min
            };
            let min_all = if key <= min_lr {
                key
            } else {
                min_lr
            };
            let max_lr = if l_max >= r_max {
                l_max
            } else {
                r_max
            };
            let max_all = if key >= max_lr {
                key
            } else {
                max_lr
            };
            (ok, min_all, max_all)
        },
    }
}

} // verus!
