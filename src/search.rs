use vstd::prelude::*;

pub mod dijkstra;
pub mod grid_graph;
pub mod probing;
pub mod probing_bi;

use crate::graph::Graph;
use crate::grid::{Direction, Grid};
use crate::node::Node;
use crate::graph::Edge;
use crate::path::{forward_found, meeting_found, shortest_found, walk_found, PathFinding};
use crate::search::dijkstra::{dijkstra, dijkstra_grid, Heuristic, ZeroHeuristic};
use crate::search::probing::{probe_graph, probe_grid, Discipline};

verus! {

/// Depth-first search: the frontier is a stack.
pub struct DepthFirstSearch {}

/// Breadth-first search: the frontier is a queue.
pub struct BreadthFirstSearch {}

/// Breadth-first search from both ends, one step on each side in turn.
pub struct BiBreadthFirstSearch {}

/// Best-first search by the cost so far.
pub struct Dijkstra {}

/// Best-first search by the cost so far plus the heuristic's estimate.
pub struct AStar<H: Heuristic> {
    pub heuristic: H,
}

/// A placeholder for a search over clustered regions: it finds nothing yet.
pub struct HierarchicalAStar<H: Heuristic> {
    pub heuristic: H,
}

impl PathFinding for DepthFirstSearch {
    open spec fn finds(&self, edges: Seq<Edge>, source: usize, target: usize, path: Seq<Edge>) -> bool {
        walk_found(edges, path, source, target)
    }

    fn graph(&self, source: &Node, target: &Node, graph: &Graph) -> (r: Graph) {
        probe_graph(source.id, target.id, graph, Discipline::Stack)
    }

    fn grid(
        &self,
        source: (usize, usize),
        target: (usize, usize),
        grid: &Grid,
        directions: &[Direction],
    ) -> (r: Graph) {
        proof {
            crate::grid::lemma_id_unique(*grid, source, target);
        }
        probe_grid(source, target, grid, directions, Discipline::Stack)
    }
}

impl PathFinding for BreadthFirstSearch {
    open spec fn finds(&self, edges: Seq<Edge>, source: usize, target: usize, path: Seq<Edge>) -> bool {
        shortest_found(edges, path, source, target)
    }

    fn graph(&self, source: &Node, target: &Node, graph: &Graph) -> (r: Graph) {
        probe_graph(source.id, target.id, graph, Discipline::Queue)
    }

    fn grid(
        &self,
        source: (usize, usize),
        target: (usize, usize),
        grid: &Grid,
        directions: &[Direction],
    ) -> (r: Graph) {
        proof {
            crate::grid::lemma_id_unique(*grid, source, target);
        }
        probe_grid(source, target, grid, directions, Discipline::Queue)
    }
}

impl PathFinding for BiBreadthFirstSearch {
    open spec fn finds(&self, edges: Seq<Edge>, source: usize, target: usize, path: Seq<Edge>) -> bool {
        meeting_found(edges, path, source, target)
    }

    fn graph(&self, source: &Node, target: &Node, graph: &Graph) -> (r: Graph) {
        probing_bi::probe_graph(source.id, target.id, graph)
    }

    fn grid(
        &self,
        source: (usize, usize),
        target: (usize, usize),
        grid: &Grid,
        directions: &[Direction],
    ) -> (r: Graph) {
        proof {
            crate::grid::lemma_id_unique(*grid, source, target);
        }
        probing_bi::probe_grid(source, target, grid, directions)
    }
}

impl PathFinding for Dijkstra {
    open spec fn finds(&self, edges: Seq<Edge>, source: usize, target: usize, path: Seq<Edge>) -> bool {
        forward_found(edges, path, source, target)
    }

    fn graph(&self, source: &Node, target: &Node, graph: &Graph) -> (r: Graph) {
        dijkstra(source.id, target.id, graph, &ZeroHeuristic {})
    }

    fn grid(
        &self,
        source: (usize, usize),
        target: (usize, usize),
        grid: &Grid,
        directions: &[Direction],
    ) -> (r: Graph) {
        proof {
            crate::grid::lemma_id_unique(*grid, source, target);
        }
        dijkstra_grid(source, target, grid, directions, &ZeroHeuristic {})
    }
}

impl<H: Heuristic> PathFinding for AStar<H> {
    open spec fn finds(&self, edges: Seq<Edge>, source: usize, target: usize, path: Seq<Edge>) -> bool {
        forward_found(edges, path, source, target)
    }

    fn graph(&self, source: &Node, target: &Node, graph: &Graph) -> (r: Graph) {
        dijkstra(source.id, target.id, graph, &self.heuristic)
    }

    fn grid(
        &self,
        source: (usize, usize),
        target: (usize, usize),
        grid: &Grid,
        directions: &[Direction],
    ) -> (r: Graph) {
        proof {
            crate::grid::lemma_id_unique(*grid, source, target);
        }
        dijkstra_grid(source, target, grid, directions, &self.heuristic)
    }
}

impl<H: Heuristic> PathFinding for HierarchicalAStar<H> {
    open spec fn finds(&self, edges: Seq<Edge>, source: usize, target: usize, path: Seq<Edge>) -> bool {
        path.len() == 0
    }

    fn graph(&self, source: &Node, target: &Node, graph: &Graph) -> (r: Graph) {
        Graph::from(Vec::new())
    }

    fn grid(
        &self,
        source: (usize, usize),
        target: (usize, usize),
        grid: &Grid,
        directions: &[Direction],
    ) -> (r: Graph) {
        Graph::from(Vec::new())
    }
}

} // verus!
