use vstd::prelude::*;

use crate::graph::{Edge, Graph};
use crate::grid::{moved, Direction, Grid, INFINITY};

verus! {

/// The edge that direction `d` gives cell `id`: to the neighbouring cell, with that cell's
/// cost as weight and its id as index, where the neighbour lies in the grid and is passable.
pub open spec fn step_edge(grid: Grid, id: int, d: Direction) -> Option<Edge> {
    let c = moved(d, grid.coord_of(id));
    if grid.inside(c) && grid.cost_at(c) < INFINITY {
        let dest = grid.id_of(c) as usize;
        Some(Edge { index: dest, source: id as usize, destination: dest, weight: grid.cost_at(c) })
    } else {
        None
    }
}

/// The edges of cell `id` by the first `k` directions, in their order.
pub open spec fn cell_edges(grid: Grid, id: int, dirs: Seq<Direction>, k: int) -> Seq<Edge>
    decreases k,
{
    if k <= 0 {
        Seq::empty()
    } else {
        cell_edges(grid, id, dirs, k - 1) + match step_edge(grid, id, dirs[k - 1]) {
            Some(e) => seq![e],
            None => Seq::empty(),
        }
    }
}

/// The edges of the first `n` cells, cell by cell.
pub open spec fn grid_edges(grid: Grid, dirs: Seq<Direction>, n: int) -> Seq<Edge>
    decreases n,
{
    if n <= 0 {
        Seq::empty()
    } else {
        grid_edges(grid, dirs, n - 1) + cell_edges(grid, n - 1, dirs, dirs.len() as int)
    }
}

/// All moves the directions allow between passable cells of the grid.
pub open spec fn moves(grid: Grid, dirs: Seq<Direction>) -> Seq<Edge> {
    grid_edges(grid, dirs, grid.size as int)
}

/// The grid as a graph: one node per cell that a move touches, one edge per move.
pub fn grid_graph(grid: &Grid, directions: &[Direction]) -> (r: Graph)
    requires
        grid.wf(),
    ensures
        r.indexes(moves(*grid, directions@)),
        r.node_position_lookup.is_none(),
{
    let mut edges: Vec<Edge> = Vec::new();
    let mut id: usize = 0;
    while id < grid.size
        invariant
            grid.wf(),
            id <= grid.size,
            edges@ == grid_edges(*grid, directions@, id as int),
        decreases grid.size - id,
    {
        let coord = grid.coords(id).unwrap();
        let ghost start = edges@;
        let mut k: usize = 0;
        while k < directions.len()
            invariant
                grid.wf(),
                id < grid.size,
                coord == grid.coord_of(id as int),
                k <= directions@.len(),
                edges@ == start + cell_edges(*grid, id as int, directions@, k as int),
            decreases directions@.len() - k,
        {
            let dest = directions[k].attempt_move(coord);
            if grid.within(dest) {
                let cost = grid.costs[dest.0][dest.1];
                if cost < INFINITY {
                    let dest_id = grid.node_id(dest).unwrap();
                    edges.push(Edge::from(dest_id, id, dest_id, cost));
                }
            }
            assert(edges@ =~= start + cell_edges(*grid, id as int, directions@, k + 1));
            k = k + 1;
        }
        id = id + 1;
    }
    Graph::from(edges)
}

} // verus!
