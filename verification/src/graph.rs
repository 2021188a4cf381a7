use vstd::prelude::*;
use std::collections::VecDeque;

verus! {

/// A weighted directed graph kept as adjacency lists; the callers build
/// acyclic ones and always start work at node 0.
pub struct Dag {
    adj_lists: Vec<Vec<(usize, u32)>>,
}

/// Every recorded edge stays inside the node range.
pub open spec fn edges_wf(adj: Seq<Seq<(usize, u32)>>) -> bool {
    forall|i: int, j: int|
        0 <= i < adj.len() && 0 <= j < adj[i].len() ==> (#[trigger] adj[i][j]).0 < adj.len()
}

/// How many entries of `visited` are still false.
pub open spec fn count_false(s: Seq<bool>) -> int
    decreases s.len(),
{
    if s.len() == 0 {
        0
    } else {
        count_false(s.drop_last()) + (if s.last() {
            0int
        } else {
            1int
        })
    }
}

proof fn lemma_count_false_update(s: Seq<bool>, i: int)
    requires
        0 <= i < s.len(),
        !s[i],
    ensures
        count_false(s.update(i, true)) == count_false(s) - 1,
        count_false(s) >= 1,
    decreases s.len(),
{
    if i == s.len() - 1 {
        assert(s.update(i, true).drop_last() =~= s.drop_last());
        lemma_count_false_nonneg(s.drop_last());
    } else {
        lemma_count_false_update(s.drop_last(), i);
        assert(s.update(i, true).drop_last() =~= s.drop_last().update(i, true));
    }
}

proof fn lemma_count_false_nonneg(s: Seq<bool>)
    ensures
        count_false(s) >= 0,
    decreases s.len(),
{
    if s.len() > 0 {
        lemma_count_false_nonneg(s.drop_last());
    }
}

impl Dag {
    pub closed spec fn adj(self) -> Seq<Seq<(usize, u32)>> {
        self.adj_lists@.map_values(|l: Vec<(usize, u32)>| l@)
    }

    pub open spec fn wf(self) -> bool {
        &&& self.adj().len() >= 1
        &&& edges_wf(self.adj())
    }

    pub open spec fn node_count(self) -> int {
        self.adj().len() as int
    }

    pub fn new(num_nodes: usize) -> (d: Dag)
        requires
            num_nodes > 0,
        ensures
            d.wf(),
            d.node_count() == num_nodes,
            forall|i: int| 0 <= i < num_nodes ==> #[trigger] d.adj()[i].len() == 0,
    {
        let mut adj_lists: Vec<Vec<(usize, u32)>> = Vec::new();
        let mut i: usize = 0;
        while i < num_nodes
            invariant
                i <= num_nodes,
                adj_lists@.len() == i,
                forall|k: int| 0 <= k < i ==> #[trigger] adj_lists@[k]@.len() == 0,
            decreases num_nodes - i,
        {
            adj_lists.push(Vec::new());
            i = i + 1;
        }
        Self { adj_lists }
    }

    pub fn from_edges_weighted(num_nodes: usize, edges: &[(usize, usize, u32)]) -> (d: Dag)
        requires
            num_nodes > 0,
            forall|t: int|
                0 <= t < edges@.len() ==> (#[trigger] edges@[t]).0 < num_nodes && edges@[t].1
                    < num_nodes,
        ensures
            d.wf(),
            d.node_count() == num_nodes,
    {
        let mut inst = Self::new(num_nodes);
        let mut t: usize = 0;
        while t < edges.len()
            invariant
                t <= edges@.len(),
                inst.wf(),
                inst.node_count() == num_nodes,
                forall|q: int|
                    0 <= q < edges@.len() ==> (#[trigger] edges@[q]).0 < num_nodes && edges@[q].1
                        < num_nodes,
            decreases edges@.len() - t,
        {
            let (s, d, w) = edges[t];
            inst.add_edge(s, d, w);
            t = t + 1;
        }
        inst
    }

    /// Record the edge `s -> e` with weight `w`.
    pub fn add_edge(&mut self, s: usize, e: usize, w: u32)
        requires
            old(self).wf(),
            s < old(self).node_count(),
            e < old(self).node_count(),
        ensures
            final(self).wf(),
            final(self).node_count() == old(self).node_count(),
            final(self).adj()[s as int] == old(self).adj()[s as int].push((e, w)),
            forall|k: int|
                0 <= k < old(self).node_count() && k != s ==> final(self).adj()[k] == old(
                    self,
                ).adj()[k],
    {
        self.adj_lists[s].push((e, w));
        proof {
            assert(final(self).adj() =~= old(self).adj().update(
                s as int,
                old(self).adj()[s as int].push((e, w)),
            ));
        }
    }

    /// Breadth-first order from node 0: every returned id is a node, none
    /// repeats. Nodes unreachable from 0 may be missing.
    fn visit_order(&self) -> (order: Vec<usize>)
        requires
            self.wf(),
        ensures
            forall|k: int| 0 <= k < order@.len() ==> #[trigger] order@[k] < self.node_count(),
            forall|k1: int, k2: int|
                0 <= k1 < k2 < order@.len() ==> order@[k1] != order@[k2],
    {
        let n = self.adj_lists.len();
        let mut queue: VecDeque<usize> = VecDeque::new();
        let mut order: Vec<usize> = Vec::new();
        let mut visited: Vec<bool> = Vec::new();
        let mut i: usize = 0;
        while i < n
            invariant
                i <= n,
                visited@.len() == i,
                forall|k: int| 0 <= k < i ==> !(#[trigger] visited@[k]),
            decreases n - i,
        {
            visited.push(false);
            i = i + 1;
        }
        queue.push_back(0usize);
        proof {
            lemma_count_false_nonneg(visited@);
        }
        while queue.len() > 0
            invariant
                self.wf(),
                n == self.node_count(),
                visited@.len() == n,
                forall|k: int| 0 <= k < queue@.len() ==> #[trigger] queue@[k] < n,
                forall|k: int|
                    0 <= k < order@.len() ==> #[trigger] order@[k] < n && visited@[order@[k] as int],
                forall|k1: int, k2: int|
                    0 <= k1 < k2 < order@.len() ==> order@[k1] != order@[k2],
            decreases count_false(visited@), queue@.len(),
        {
            proof {
                lemma_count_false_nonneg(visited@);
            }
            let node_id = queue.pop_front().unwrap();
            if !visited[node_id] {
                let neighbors = self.adj_lists[node_id].len();
                let mut j: usize = 0;
                while j < neighbors
                    invariant
                        self.wf(),
                        n == self.node_count(),
                        node_id < n,
                        neighbors == self.adj()[node_id as int].len(),
                        forall|k: int| 0 <= k < queue@.len() ==> #[trigger] queue@[k] < n,
                    decreases neighbors - j,
                {
                    let (neighbor, _) = self.adj_lists[node_id][j];
                    queue.push_back(neighbor);
                    j = j + 1;
                }
                let ghost old_visited = visited@;
                visited.set(node_id, true);
                order.push(node_id);
                proof {
                    lemma_count_false_update(old_visited, node_id as int);
                    assert(forall|k1: int|
                        0 <= k1 < order@.len() - 1 ==> order@[k1] != node_id as usize);
                }
            }
        }
        order
    }
}

/// For each node, the best-known predecessor and path cost from `source`,
/// improving along a breadth-first visit order; `better` picks whether a
/// smaller or larger cost wins. A relaxation whose cost would overflow
/// `u32` is skipped. One entry per node comes back; every recorded entry
/// names an in-range predecessor with an edge to its node (or is the
/// source's own initial entry); and when no cost can better the source's
/// zero, the source keeps `(source, 0)`.
pub fn best_paths_from_source<F: Fn(u32, u32) -> bool>(
    dag: &Dag,
    source: usize,
    better: F,
) -> (path: Vec<Option<(usize, u32)>>)
    requires
        dag.wf(),
        source < dag.node_count(),
        forall|a: u32, b: u32| #[trigger] better.requires((a, b)),
    ensures
        path@.len() == dag.node_count(),
        path@[source as int] is Some,
        (forall|a: u32, rb: bool| better.ensures((a, 0u32), rb) ==> !rb) ==> path@[source as int]
            == Some((source, 0u32)),
        forall|v: int|
            0 <= v < dag.node_count() ==> ((#[trigger] path@[v]) matches Some(pc) ==> pc.0
                < dag.node_count() && ((v == source && pc.0 == source && pc.1 == 0) || exists|
                jj: int,
            |
                0 <= jj < dag.adj()[pc.0 as int].len() && (#[trigger] dag.adj()[pc.0 as int][jj]).0
                    == v)),
{
    let n = dag.adj_lists.len();
    let mut path: Vec<Option<(usize, u32)>> = Vec::new();
    let mut i: usize = 0;
    while i < n
        invariant
            i <= n,
            path@.len() == i,
            forall|k: int| 0 <= k < i ==> #[trigger] path@[k] is None,
        decreases n - i,
    {
        path.push(None);
        i = i + 1;
    }
    path.set(source, Some((source, 0)));
    let order = dag.visit_order();
    let mut t: usize = 0;
    while t < order.len()
        invariant
            dag.wf(),
            n == dag.node_count(),
            source < n,
            path@.len() == n,
            path@[source as int] is Some,
            (forall|a: u32, rb: bool| better.ensures((a, 0u32), rb) ==> !rb)
                ==> path@[source as int] == Some((source, 0u32)),
            forall|v: int|
                0 <= v < dag.node_count() ==> ((#[trigger] path@[v]) matches Some(pc) ==> pc.0
                    < dag.node_count() && ((v == source && pc.0 == source && pc.1 == 0) || exists|
                    jj: int,
                |
                    0 <= jj < dag.adj()[pc.0 as int].len() && (#[trigger] dag.adj()[pc.0 as int][jj]).0
                        == v)),
            forall|k: int| 0 <= k < order@.len() ==> #[trigger] order@[k] < n,
            forall|a: u32, b: u32| #[trigger] better.requires((a, b)),
        decreases order@.len() - t,
    {
        let node = order[t];
        let degree = dag.adj_lists[node].len();
        let mut j: usize = 0;
        while j < degree
            invariant
                dag.wf(),
                n == dag.node_count(),
                source < n,
                node < n,
                path@.len() == n,
                path@[source as int] is Some,
            (forall|a: u32, rb: bool| better.ensures((a, 0u32), rb) ==> !rb)
                    ==> path@[source as int] == Some((source, 0u32)),
                forall|v: int|
                    0 <= v < dag.node_count() ==> ((#[trigger] path@[v]) matches Some(pc) ==> pc.0
                        < dag.node_count() && ((v == source && pc.0 == source && pc.1 == 0) || exists|
                        jj: int,
                    |
                        0 <= jj < dag.adj()[pc.0 as int].len() && (#[trigger] dag.adj()[pc.0 as int][jj]).0
                            == v)),
                degree == dag.adj()[node as int].len(),
                forall|a: u32, b: u32| #[trigger] better.requires((a, b)),
            decreases degree - j,
        {
            let (neighbor, weight) = dag.adj_lists[node][j];
            if let Some((_, visited_cost)) = path[node] {
                // skip a relaxation whose cost cannot be represented
                if let Some(new_cost) = visited_cost.checked_add(weight) {
                    match path[neighbor] {
                        None => {
                            path.set(neighbor, Some((node, new_cost)));
                            proof {
                                assert(0 <= j < dag.adj()[node as int].len() && dag.adj()[
                                    node as int][j as int].0 == neighbor);
                            }
                        },
                        Some((_, old_cost)) => {
                            if better(new_cost, old_cost) {
                                path.set(neighbor, Some((node, new_cost)));
                                proof {
                                    assert(0 <= j < dag.adj()[node as int].len() && dag.adj()[
                                        node as int][j as int].0 == neighbor);
                                }
                            }
                        },
                    }
                }
            }
            j = j + 1;
        }
        t = t + 1;
    }
    path
}

/// Best paths when smaller costs win: no relaxation can better the
/// source's zero cost, so its entry stays `(source, 0)`, and every other
/// recorded entry names a predecessor with an edge to its node.
pub fn minimum_paths_cost(dag: &Dag, source: usize) -> (path: Vec<Option<(usize, u32)>>)
    requires
        dag.wf(),
        source < dag.node_count(),
    ensures
        path@.len() == dag.node_count(),
        path@[source as int] == Some((source, 0u32)),
        forall|v: int|
            0 <= v < dag.node_count() ==> ((#[trigger] path@[v]) matches Some(pc) ==> pc.0
                < dag.node_count() && ((v == source && pc.0 == source && pc.1 == 0) || exists|
                jj: int,
            |
                0 <= jj < dag.adj()[pc.0 as int].len() && (#[trigger] dag.adj()[pc.0 as int][jj]).0
                    == v)),
{
    let better = |new: u32, old: u32| -> (res: bool)
        ensures
            res == (new < old),
        { new < old };
    let path = best_paths_from_source(dag, source, better);
    proof {
        assert forall|a: u32, rb: bool| better.ensures((a, 0u32), rb) implies !rb by {}
    }
    path
}

/// Best paths when larger costs win: most beneficial paths. Every recorded
/// entry names a predecessor with an edge to its node, or is the source's
/// initial entry.
pub fn maximum_paths_beneficial(dag: &Dag, source: usize) -> (path: Vec<Option<(usize, u32)>>)
    requires
        dag.wf(),
        source < dag.node_count(),
    ensures
        path@.len() == dag.node_count(),
        path@[source as int] is Some,
        forall|v: int|
            0 <= v < dag.node_count() ==> ((#[trigger] path@[v]) matches Some(pc) ==> pc.0
                < dag.node_count() && ((v == source && pc.0 == source && pc.1 == 0) || exists|
                jj: int,
            |
                0 <= jj < dag.adj()[pc.0 as int].len() && (#[trigger] dag.adj()[pc.0 as int][jj]).0
                    == v)),
{
    let better = |new: u32, old: u32| -> (res: bool)
        ensures
            res == (new > old),
        { new > old };
    best_paths_from_source(dag, source, better)
}

/// Follow the predecessor entries from `dest` back to `source` and return
/// the forward path with its total cost. `None` when the destination has no
/// entry, a link leaves the range, or the chain does not reach `source`
/// within one step per node (a longer chain must repeat a node).
pub fn extract_path(path_info: &[Option<(usize, u32)>], source: usize, dest: usize) -> (r: Option<
    (Vec<usize>, u32),
>)
    requires
        dest < path_info@.len(),
        source < path_info@.len(),
    ensures
        path_info@[dest as int] is None ==> r is None,
        r matches Some(p) ==> {
            &&& p.0@.len() >= 1
            &&& p.0@[0] == source
            &&& p.0@[p.0@.len() - 1] == dest
            &&& path_info@[dest as int] matches Some(pc) && pc.1 == p.1
            &&& forall|q: int|
                1 <= q < p.0@.len() ==> ((#[trigger] path_info@[p.0@[q] as int]) matches Some(e)
                    && e.0 == p.0@[q - 1])
        },
{
    let (_, total_cost) = match path_info[dest] {
        Some(x) => x,
        None => {
            return None;
        },
    };
    let n = path_info.len();
    let mut path: Vec<usize> = Vec::new();
    let mut current = dest;
    let mut steps: usize = 0;
    while current != source
        invariant
            current < n,
            n == path_info@.len(),
            source < n,
            steps <= n,
            path@.len() == steps,
            steps == 0 ==> current == dest,
            steps >= 1 ==> path@[0] == dest,
            current != source ==> (steps >= 1 ==> path@[steps - 1] != source),
            forall|k: int| 0 <= k < path@.len() ==> #[trigger] path@[k] < n,
            forall|k: int|
                0 <= k < path@.len() - 1 ==> ((#[trigger] path_info@[path@[k] as int]) matches Some(
                    e,
                ) && e.0 == path@[k + 1]),
            steps >= 1 ==> (path_info@[path@[steps - 1] as int] matches Some(e) && e.0
                == current),
        decreases n - steps,
    {
        if steps >= n {
            // a chain this long revisits some node: the links are cyclic
            return None;
        }
        let (parent, _) = match path_info[current] {
            Some(x) => x,
            None => {
                return None;
            },
        };
        if parent >= n {
            return None;
        }
        path.push(current);
        current = parent;
        steps = steps + 1;
    }
    proof {
        if path@.len() == 0 {
            assert(current == dest);
        }
    }
    path.push(source);
    proof {
        assert(path@[0] == dest);
        assert(path@[path@.len() - 1] == source);
        assert(forall|k: int|
            0 <= k < path@.len() - 1 ==> ((#[trigger] path_info@[path@[k] as int]) matches Some(e)
                && e.0 == path@[k + 1]));
    }
    let mut reversed: Vec<usize> = Vec::new();
    let mut k: usize = path.len();
    while k > 0
        invariant
            k <= path@.len(),
            reversed@.len() == path@.len() - k,
            forall|q: int|
                0 <= q < reversed@.len() ==> #[trigger] reversed@[q] == path@[path@.len() - 1 - q],
        decreases k,
    {
        k = k - 1;
        reversed.push(path[k]);
    }
    proof {
        assert(reversed@[0] == path@[path@.len() - 1]);
        assert(reversed@[reversed@.len() - 1] == path@[0]);
        let ln = path@.len() as int;
        assert forall|q: int| 1 <= q < reversed@.len() implies (#[trigger] path_info@[reversed@[q]
            as int]) matches Some(e) && e.0 == reversed@[q - 1] by {
            assert(reversed@[q] == path@[ln - 1 - q]);
            assert(reversed@[q - 1] == path@[ln - q]);
            assert(path_info@[path@[ln - 1 - q] as int] matches Some(e) && e.0 == path@[ln - q]);
        }
    }
    Some((reversed, total_cost))
}

/// Shortest path from `source` to `dest` with its cost.
pub fn minimum_paths_cost_from_to(dag: &Dag, source: usize, dest: usize) -> (r: Option<
    (Vec<usize>, u32),
>)
    requires
        dag.wf(),
        source < dag.node_count(),
        dest < dag.node_count(),
    ensures
        r matches Some(p) ==> p.0@.len() >= 1 && p.0@[0] == source && p.0@[p.0@.len() - 1] == dest,
{
    let paths = minimum_paths_cost(dag, source);
    extract_path(paths.as_slice(), source, dest)
}

/// Most beneficial path from `source` to `dest` with its cost.
pub fn maximum_path_beneficial_from_to(dag: &Dag, source: usize, dest: usize) -> (r: Option<
    (Vec<usize>, u32),
>)
    requires
        dag.wf(),
        source < dag.node_count(),
        dest < dag.node_count(),
    ensures
        r matches Some(p) ==> p.0@.len() >= 1 && p.0@[0] == source && p.0@[p.0@.len() - 1] == dest,
{
    let paths = maximum_paths_beneficial(dag, source);
    extract_path(paths.as_slice(), source, dest)
}

} // verus!
