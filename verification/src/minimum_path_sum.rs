use vstd::prelude::*;
use crate::graph::Dag;
use crate::graph::minimum_paths_cost_from_to;

verus! {

/// Cheapest cost of walking from the top-left corner to cell `(r, c)`
/// moving only right or down, summing the visited cells.
pub open spec fn path_cost(g: Seq<Vec<i32>>, r: int, c: int) -> int
    decreases r, c,
{
    let cell = g[r][c] as int;
    if r <= 0 && c <= 0 {
        cell
    } else if r <= 0 {
        cell + path_cost(g, r, c - 1)
    } else if c <= 0 {
        cell + path_cost(g, r - 1, c)
    } else {
        let up = path_cost(g, r - 1, c);
        let left = path_cost(g, r, c - 1);
        cell + (if left <= up {
            left
        } else {
            up
        })
    }
}

proof fn lemma_path_cost_bounds(g: Seq<Vec<i32>>, r: int, c: int)
    requires
        0 <= r,
        0 <= c,
    ensures
        -((r + c + 1) * 0x8000_0000) <= path_cost(g, r, c) <= (r + c + 1) * 0x8000_0000,
    decreases r, c,
{
    if r == 0 && c == 0 {
    } else if r == 0 {
        lemma_path_cost_bounds(g, r, c - 1);
    } else if c == 0 {
        lemma_path_cost_bounds(g, r - 1, c);
    } else {
        lemma_path_cost_bounds(g, r, c - 1);
        lemma_path_cost_bounds(g, r - 1, c);
    }
}

pub struct Solution;

impl Solution {
    /// Cheapest right/down path through the grid; an empty grid costs `0`
    /// and a grid of empty rows reports `i32::MAX`, the scan's fill value.
    pub fn min_path_sum(grid: Vec<Vec<i32>>) -> (res: i32)
        requires
            grid@.len() <= 0x4000_0000,
            forall|r: int| 0 <= r < grid@.len() ==> (#[trigger] grid@[r])@.len() == grid@[0]@.len(),
            grid@[0]@.len() <= 0x4000_0000,
            grid@.len() >= 1 && grid@[0]@.len() >= 1 ==> i32::MIN <= path_cost(
                grid@,
                grid@.len() - 1,
                grid@[0]@.len() - 1,
            ) <= i32::MAX,
        ensures
            grid@.len() == 0 ==> res == 0,
            grid@.len() >= 1 && grid@[0]@.len() == 0 ==> res == i32::MAX,
            grid@.len() >= 1 && grid@[0]@.len() >= 1 ==> res as int == path_cost(
                grid@,
                grid@.len() - 1,
                grid@[0]@.len() - 1,
            ),
    {
        if grid.len() == 0 {
            return 0;
        }
        let n_cols = grid[0].len();
        let n_rows = grid.len();
        if n_cols == 0 {
            return i32::MAX;
        }
        let mut curr_row: Vec<i64> = Vec::new();
        let mut prev_row: Vec<i64> = Vec::new();
        let mut k: usize = 0;
        while k < n_cols
            invariant
                k <= n_cols,
                curr_row@.len() == k,
                prev_row@.len() == k,
            decreases n_cols - k,
        {
            curr_row.push(i32::MAX as i64);
            prev_row.push(i32::MAX as i64);
            k = k + 1;
        }
        let mut r_index: usize = 0;
        while r_index < n_rows
            invariant
                r_index <= n_rows,
                n_rows == grid@.len(),
                n_cols == grid@[0]@.len(),
                1 <= n_cols <= 0x4000_0000,
                n_rows <= 0x4000_0000,
                forall|r: int| 0 <= r < grid@.len() ==> (#[trigger] grid@[r])@.len() == n_cols,
                curr_row@.len() == n_cols,
                prev_row@.len() == n_cols,
                r_index >= 1 ==> forall|cc: int|
                    0 <= cc < n_cols ==> #[trigger] prev_row@[cc] == path_cost(
                        grid@,
                        r_index as int - 1,
                        cc,
                    ),
            decreases n_rows - r_index,
        {
            let mut c_index: usize = 0;
            while c_index < n_cols
                invariant
                    c_index <= n_cols,
                    r_index < n_rows,
                    n_rows == grid@.len(),
                    n_cols == grid@[0]@.len(),
                    1 <= n_cols <= 0x4000_0000,
                    n_rows <= 0x4000_0000,
                    forall|r: int| 0 <= r < grid@.len() ==> (#[trigger] grid@[r])@.len() == n_cols,
                    curr_row@.len() == n_cols,
                    prev_row@.len() == n_cols,
                    r_index >= 1 ==> forall|cc: int|
                        0 <= cc < n_cols ==> #[trigger] prev_row@[cc] == path_cost(
                            grid@,
                            r_index as int - 1,
                            cc,
                        ),
                    forall|cc: int|
                        0 <= cc < c_index ==> #[trigger] curr_row@[cc] == path_cost(
                            grid@,
                            r_index as int,
                            cc,
                        ),
                decreases n_cols - c_index,
            {
                proof {
                    lemma_path_cost_bounds(grid@, r_index as int, c_index as int);
                    if c_index >= 1 {
                        lemma_path_cost_bounds(grid@, r_index as int, c_index as int - 1);
                    }
                    if r_index >= 1 {
                        lemma_path_cost_bounds(grid@, r_index as int - 1, c_index as int);
                    }
                }
                let cell_value = grid[r_index][c_index] as i64;
                let v: i64 = if c_index == 0 && r_index == 0 {
                    cell_value
                } else if c_index == 0 {
                    prev_row[c_index] + cell_value
                } else if r_index == 0 {
                    curr_row[c_index - 1] + cell_value
                } else {
                    let from_left = curr_row[c_index - 1];
                    let from_up = prev_row[c_index];
                    (if from_left <= from_up {
                        from_left
                    } else {
                        from_up
                    }) + cell_value
                };
                curr_row.set(c_index, v);
                c_index = c_index + 1;
            }
            std::mem::swap(&mut prev_row, &mut curr_row);
            r_index = r_index + 1;
        }
        prev_row[n_cols - 1] as i32
    }

    /// The same problem phrased as a shortest path through a graph with one
    /// node per cell. The path search runs over `u32` weights, so negative
    /// cells are a caller error.
    pub fn min_path_sum_dag(grid: Vec<Vec<i32>>) -> (res: i32)
        requires
            1 <= grid@.len(),
            grid@.len() <= 0xffff,
            forall|r: int| 0 <= r < grid@.len() ==> (#[trigger] grid@[r])@.len() == grid@[0]@.len(),
            1 <= grid@[0]@.len(),
            grid@[0]@.len() <= 0xffff,
    {
        let n_rows = grid.len();
        let n_cols = grid[0].len();
        assert(n_rows * n_cols <= 0xffff * 0xffff) by (nonlinear_arith)
            requires
                n_rows <= 0xffff,
                n_cols <= 0xffff,
        ;
        let num_nodes = n_rows * n_cols + 1;
        let mut dag = Dag::new(num_nodes);
        let mut r_index: usize = 0;
        while r_index < n_rows
            invariant
                r_index <= n_rows,
                n_rows == grid@.len(),
                n_cols == grid@[0]@.len(),
                1 <= n_rows <= 0xffff,
                1 <= n_cols <= 0xffff,
                forall|r: int| 0 <= r < grid@.len() ==> (#[trigger] grid@[r])@.len() == n_cols,
                num_nodes == n_rows * n_cols + 1,
                dag.wf(),
                dag.node_count() == num_nodes,
            decreases n_rows - r_index,
        {
            let mut c_index: usize = 0;
            while c_index < n_cols
                invariant
                    c_index <= n_cols,
                    r_index < n_rows,
                    n_rows == grid@.len(),
                    n_cols == grid@[0]@.len(),
                    1 <= n_rows <= 0xffff,
                    1 <= n_cols <= 0xffff,
                    forall|r: int| 0 <= r < grid@.len() ==> (#[trigger] grid@[r])@.len() == n_cols,
                    num_nodes == n_rows * n_cols + 1,
                    dag.wf(),
                    dag.node_count() == num_nodes,
                decreases n_cols - c_index,
            {
                assert(r_index * n_cols + c_index + 1 <= n_rows * n_cols) by (nonlinear_arith)
                    requires
                        r_index < n_rows,
                        c_index < n_cols,
                        1 <= n_cols,
                ;
                assert(n_rows * n_cols <= 0xffff * 0xffff) by (nonlinear_arith)
                    requires
                        n_rows <= 0xffff,
                        n_cols <= 0xffff,
                ;
                let node_idx = r_index * n_cols + c_index + 1;
                if c_index != n_cols - 1 {
                    assert(r_index * n_cols + (c_index + 1) + 1 <= n_rows * n_cols) by (
                    nonlinear_arith)
                        requires
                            r_index < n_rows,
                            c_index + 1 < n_cols,
                            1 <= n_cols,
                    ;
                    dag.add_edge(node_idx, node_idx + 1, grid[r_index][c_index + 1] as u32);
                }
                if r_index != n_rows - 1 {
                    assert((r_index + 1) * n_cols + c_index + 1 <= n_rows * n_cols) by (
                    nonlinear_arith)
                        requires
                            r_index + 1 <= n_rows - 1,
                            c_index < n_cols,
                            1 <= n_cols,
                    ;
                    let down_node_idx = (r_index + 1) * n_cols + c_index + 1;
                    dag.add_edge(node_idx, down_node_idx, grid[r_index + 1][c_index] as u32);
                }
                c_index = c_index + 1;
            }
            r_index = r_index + 1;
        }
        assert(n_rows * n_cols >= 1) by (nonlinear_arith)
            requires
                1 <= n_rows,
                1 <= n_cols,
        ;
        dag.add_edge(0, 1, grid[0][0] as u32);
        match minimum_paths_cost_from_to(&dag, 0, num_nodes - 1) {
            Some(p) => p.1 as i32,
            // the grid's corner is linked to node 0 and cells chain to the
            // sink, so a missing path cannot happen; fail soft
            None => i32::MAX,
        }
    }
}

} // verus!
