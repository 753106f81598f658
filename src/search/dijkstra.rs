use std::collections::HashMap;
use std::collections::HashSet;
use priority_queue::DoublePriorityQueue;
use vstd::prelude::*;

use crate::graph::{lemma_endpoints_contains, Edge, Graph};
use crate::grid::{Direction, Grid};
use crate::search::grid_graph::{grid_graph, moves};
use crate::path::{
    closed_under, is_walk, lemma_closed_set_unreachable, lemma_out_edges_in_list,
    lemma_reachable_endpoints, no_repeat, reachable,
};

verus! {

broadcast use vstd::std_specs::hash::group_hash_axioms;

#[verifier::external_type_specification]
#[verifier::external_body]
#[verifier::reject_recursive_types(I)]
#[verifier::reject_recursive_types(P)]
#[verifier::reject_recursive_types(H)]
pub struct ExDoublePriorityQueue<I, P, H>(DoublePriorityQueue<I, P, H>);

/// A min-priority queue of node ids keyed by cost.
pub type CostQueue = DoublePriorityQueue<usize, u64>;

/// The items of a priority queue, each with its priority.
pub uninterp spec fn queue_contents(q: CostQueue) -> Map<usize, u64>;

/// No item queued.
pub open spec fn empty_costs() -> Map<usize, u64> {
    Map::empty()
}

/// Relies on `DoublePriorityQueue::new`: the queue starts empty.
#[verifier::external_body]
fn queue_new() -> (r: CostQueue)
    ensures
        queue_contents(r) == empty_costs(),
{
    DoublePriorityQueue::new()
}

/// Relies on `DoublePriorityQueue::push`: the item is inserted, or its priority replaced
/// when it is already queued.
#[verifier::external_body]
fn queue_push(q: &mut CostQueue, item: usize, priority: u64)
    ensures
        queue_contents(*final(q)) == queue_contents(*old(q)).insert(item, priority),
{
    q.push(item, priority);
}

/// Relies on `DoublePriorityQueue::pop_min`: an item of least priority leaves with its
/// priority; nothing leaves an empty queue.
#[verifier::external_body]
fn queue_pop_min(q: &mut CostQueue) -> (r: Option<(usize, u64)>)
    ensures
        match r {
            None => queue_contents(*old(q)).dom().is_empty() && queue_contents(*final(q))
                == queue_contents(*old(q)),
            Some((item, priority)) => {
                &&& queue_contents(*old(q)).contains_key(item)
                &&& queue_contents(*old(q))[item] == priority
                &&& forall|other: usize| #[trigger]
                    queue_contents(*old(q)).contains_key(other) ==> priority <= queue_contents(
                        *old(q),
                    )[other]
                &&& queue_contents(*final(q)) == queue_contents(*old(q)).remove(item)
            },
        },
{
    q.pop_min()
}

/// Relies on `DoublePriorityQueue::is_empty`: whether no item is queued.
#[verifier::external_body]
fn queue_is_empty(q: &CostQueue) -> (r: bool)
    ensures
        r == queue_contents(*q).dom().is_empty(),
{
    q.is_empty()
}

/// An estimate of the remaining cost from a node, or a cell, to the target.
pub trait Heuristic {
    fn estimate(&self, candidate: usize, target: usize, graph: &Graph) -> u64;

    fn estimate_cell(&self, candidate: (usize, usize), target: (usize, usize)) -> u64;
}

/// The estimate that is always 0: with it the search is Dijkstra's.
pub struct ZeroHeuristic {}

impl Heuristic for ZeroHeuristic {
    fn estimate(&self, _candidate: usize, _target: usize, _graph: &Graph) -> u64 {
        0
    }

    fn estimate_cell(&self, _candidate: (usize, usize), _target: (usize, usize)) -> u64 {
        0
    }
}

/// A cell heuristic read on the node ids of a grid of the given height.
struct CellEstimate<'a, H: Heuristic> {
    inner: &'a H,
    height: usize,
}

impl<'a, H: Heuristic> Heuristic for CellEstimate<'a, H> {
    fn estimate(&self, candidate: usize, target: usize, _graph: &Graph) -> u64 {
        if self.height == 0 {
            0
        } else {
            self.inner.estimate_cell(
                (candidate / self.height, candidate % self.height),
                (target / self.height, target % self.height),
            )
        }
    }

    fn estimate_cell(&self, candidate: (usize, usize), target: (usize, usize)) -> u64 {
        self.inner.estimate_cell(candidate, target)
    }
}

/// The best-first search between two cells, over the moves that the directions allow between
/// passable cells, with the cost of entering a cell as the weight of a move, as `dijkstra`
/// searches a graph.
pub fn dijkstra_grid<H: Heuristic>(
    source: (usize, usize),
    target: (usize, usize),
    grid: &Grid,
    directions: &[Direction],
    heuristic: &H,
) -> (r: Graph)
    requires
        grid.wf(),
        grid.inside(source),
        grid.inside(target),
    ensures
        r.wf(),
        r.node_position_lookup.is_none(),
        r.edges@.len() > 0 ==> is_walk(
            moves(*grid, directions@),
            r.edges@,
            grid.id_of(source) as usize,
            grid.id_of(target) as usize,
        ),
        r.edges@.len() > 0 ==> no_repeat(r.edges@, grid.id_of(source) as usize),
        r.edges@.len() == 0 <==> (source == target || !reachable(
            moves(*grid, directions@),
            grid.id_of(source) as usize,
            grid.id_of(target) as usize,
        )),
{
    let src_id = grid.node_id(source).unwrap();
    let trg_id = grid.node_id(target).unwrap();
    proof {
        crate::grid::lemma_id_unique(*grid, source, target);
    }
    let graph = grid_graph(grid, directions);
    if !graph.nodes_lookup.contains_key(&src_id) {
        proof {
            if reachable(graph.edges@, src_id, trg_id) {
                lemma_reachable_endpoints(graph.edges@, src_id, trg_id);
            }
        }
        return Graph::from(Vec::new());
    }
    let estimate = CellEstimate { inner: heuristic, height: grid.height };
    dijkstra(src_id, trg_id, &graph, &estimate)
}

/// A copy of the edges.
pub fn copy_edges(v: &Vec<Edge>) -> (r: Vec<Edge>)
    ensures
        r@ == v@,
{
    let mut out: Vec<Edge> = Vec::new();
    let mut i: usize = 0;
    while i < v.len()
        invariant
            i <= v@.len(),
            out@ == v@.take(i as int),
        decreases v@.len() - i,
    {
        out.push(v[i]);
        i = i + 1;
    }
    assert(v@.take(v@.len() as int) =~= v@);
    out
}

/// A path table entry repeats no node, and every node on it but the last is expanded.
pub open spec fn fixed_path(path: Seq<Edge>, source: usize, visited: Set<usize>) -> bool {
    &&& no_repeat(path, source)
    &&& forall|k: int| 0 <= k < path.len() - 1 ==> visited.contains((#[trigger] path[k]).destination)
}

/// The path table entry of `v` is a walk from `source` to `v`, or empty at the source.
pub open spec fn leads_to(edges: Seq<Edge>, path: Seq<Edge>, source: usize, v: usize) -> bool {
    (path.len() == 0 && v == source) || is_walk(edges, path, source, v)
}

/// Best-first search from `source` for `target`, keyed by the cost so far plus the
/// heuristic's estimate (saturating at `u64::MAX`). Each time an edge reaches an unexpanded
/// node, that node's path becomes the path of the expanded node followed by the edge. The
/// result holds the path of the target, from `source` on.
pub fn dijkstra<H: Heuristic>(source: usize, target: usize, graph: &Graph, heuristic: &H) -> (r:
    Graph)
    requires
        graph.wf(),
        graph.nodes_lookup@.contains_key(source),
    ensures
        r.wf(),
        r.node_position_lookup.is_none(),
        r.edges@.len() > 0 ==> is_walk(graph.edges@, r.edges@, source, target),
        r.edges@.len() > 0 ==> no_repeat(r.edges@, source),
        r.edges@.len() == 0 <==> (source == target || !reachable(graph.edges@, source, target)),
{
    let mut visited: HashSet<usize> = HashSet::new();
    let mut node_to_edges: HashMap<usize, Vec<Edge>> = HashMap::new();
    let mut queue = queue_new();
    let ghost nodes = graph.nodes_lookup@.dom();

    queue_push(&mut queue, source, 0);
    node_to_edges.insert(source, Vec::new());
    proof {
        assert(queue_contents(queue) == Map::<usize, u64>::empty().insert(source, 0u64));
    }

    while !visited.contains(&target) && !queue_is_empty(&queue)
        invariant
            graph.wf(),
            nodes == graph.nodes_lookup@.dom(),
            nodes.contains(source),
            visited@.subset_of(nodes),
            queue_contents(queue).dom().subset_of(nodes),
            visited@.disjoint(queue_contents(queue).dom()),
            node_to_edges@.dom() == visited@ + queue_contents(queue).dom(),
            forall|v: usize|
                #[trigger] node_to_edges@.contains_key(v) ==> leads_to(
                    graph.edges@,
                    node_to_edges@[v]@,
                    source,
                    v,
                ),
            node_to_edges@.contains_key(source) && node_to_edges@[source]@.len() == 0,
            forall|v: usize|
                #[trigger] node_to_edges@.contains_key(v) ==> fixed_path(
                    node_to_edges@[v]@,
                    source,
                    visited@,
                ),
            visited@.contains(source) || (queue_contents(queue) == Map::<usize, u64>::empty().insert(
                source,
                0u64,
            ) && visited@.is_empty()),
            forall|v: usize, k: int|
                visited@.contains(v) && 0 <= k < graph.nodes_lookup@[v].edges@.len() ==> (
                visited@ + queue_contents(queue).dom()).contains(
                    (#[trigger] graph.nodes_lookup@[v].edges@[k]).destination,
                ),
        decreases nodes.difference(visited@).len(),
    {
        let ghost old_visited = visited@;
        let ghost old_queue = queue_contents(queue);
        let (current, priority) = queue_pop_min(&mut queue).unwrap();
        visited.insert(current);
        proof {
            assert forall|v: usize| #[trigger] node_to_edges@.contains_key(v) implies fixed_path(
                node_to_edges@[v]@,
                source,
                visited@,
            ) by {
                assert(fixed_path(node_to_edges@[v]@, source, old_visited));
            }
            vstd::set_lib::lemma_set_subset_finite(nodes, nodes.difference(old_visited));
            assert(nodes.difference(visited@) =~= nodes.difference(old_visited).remove(current));
            if !old_visited.contains(source) {
                assert(current == source);
            }
        }
        match graph.nodes_lookup.get(&current) {
            None => {},
            Some(node) => {
                let mut j: usize = 0;
                while j < node.edges.len()
                    invariant
                        graph.wf(),
                        nodes == graph.nodes_lookup@.dom(),
                        nodes.contains(source),
                        graph.nodes_lookup@.contains_key(current),
                        *node == graph.nodes_lookup@[current],
                        visited@.contains(current),
                        visited@.contains(source),
                        visited@ == old_visited.insert(current),
                        j <= node.edges@.len(),
                        visited@.subset_of(nodes),
                        queue_contents(queue).dom().subset_of(nodes),
                        visited@.disjoint(queue_contents(queue).dom()),
                        node_to_edges@.dom() == visited@ + queue_contents(queue).dom(),
                        forall|v: usize|
                            #[trigger] node_to_edges@.contains_key(v) ==> leads_to(
                                graph.edges@,
                                node_to_edges@[v]@,
                                source,
                                v,
                            ),
                        node_to_edges@.contains_key(source) && node_to_edges@[source]@.len() == 0,
                        forall|v: usize|
                            #[trigger] node_to_edges@.contains_key(v) ==> fixed_path(
                                node_to_edges@[v]@,
                                source,
                                visited@,
                            ),
                        forall|v: usize, k: int|
                            visited@.contains(v) && 0 <= k < graph.nodes_lookup@[v].edges@.len()
                                && (v != current || k < j) ==> (visited@ + queue_contents(
                                queue,
                            ).dom()).contains(
                                (#[trigger] graph.nodes_lookup@[v].edges@[k]).destination,
                            ),
                    decreases node.edges@.len() - j,
                {
                    let edge = node.edges[j];
                    let dest_id = edge.destination;
                    if !visited.contains(&dest_id) {
                        let estimate = heuristic.estimate(edge.destination, target, graph);
                        let cost = priority.saturating_add(edge.weight).saturating_add(estimate);
                        queue_push(&mut queue, edge.destination, cost);
                        let mut from_edges = match node_to_edges.get(&current) {
                            Some(path) => copy_edges(path),
                            None => Vec::new(),
                        };
                        let ghost before = from_edges@;
                        from_edges.push(edge);
                        proof {
                            lemma_out_edges_in_list(graph.edges@, current, j as int);
                            let k = choose|k: int|
                                0 <= k < graph.edges@.len() && graph.edges@[k] == edge;
                            lemma_endpoints_contains(graph.edges@, k);
                            assert(node_to_edges@.contains_key(current));
                            lemma_walk_push(graph.edges@, before, edge, source, current);
                            assert(fixed_path(before, source, visited@));
                            assert(leads_to(graph.edges@, before, source, current));
                            let p = from_edges@;
                            assert forall|k: int| 0 <= k < before.len() implies visited@.contains(
                                (#[trigger] before[k]).destination,
                            ) by {
                                if k == before.len() - 1 {
                                    assert(before.last().destination == current);
                                }
                            }
                            assert forall|k: int| 0 <= k < p.len() - 1 implies visited@.contains(
                                (#[trigger] p[k]).destination,
                            ) by {
                                assert(p[k] == before[k]);
                            }
                            assert forall|a: int, b: int| 0 <= a < b < p.len() implies (
                            #[trigger] p[a]).destination != (#[trigger] p[b]).destination by {
                                assert(p[a] == before[a]);
                                if b < before.len() {
                                    assert(p[b] == before[b]);
                                }
                            }
                            assert forall|a: int| 0 <= a < p.len() implies (#[trigger] p[a]).destination
                                != source by {
                                if a < before.len() {
                                    assert(p[a] == before[a]);
                                }
                            }
                            assert(fixed_path(p, source, visited@));
                        }
                        node_to_edges.insert(dest_id, from_edges);
                        proof {
                            assert(node_to_edges@.dom() =~= visited@ + queue_contents(queue).dom());
                        }
                    }
                    j = j + 1;
                }
            },
        }
    }
    proof {
        if !visited@.contains(target) {
            assert(queue_contents(queue).dom().is_empty());
            assert(!node_to_edges@.contains_key(target));
            if source != target {
                assert(closed_under(*graph, visited@));
                lemma_closed_set_unreachable(*graph, visited@, source, target);
            }
        }
    }
    let path = match node_to_edges.get(&target) {
        Some(path) => copy_edges(path),
        None => Vec::new(),
    };
    Graph::from(path)
}

/// A walk from `source` to `v` (or the empty path at `source`) followed by an edge leaving `v`
/// is a walk to the edge's destination.
proof fn lemma_walk_push(edges: Seq<Edge>, path: Seq<Edge>, e: Edge, source: usize, v: usize)
    requires
        leads_to(edges, path, source, v),
        e.source == v,
        edges.contains(e),
    ensures
        is_walk(edges, path.push(e), source, e.destination),
{
    let p = path.push(e);
    assert forall|i: int| 0 <= i < p.len() - 1 implies (#[trigger] p[i]).destination == p[i
        + 1].source by {
        if i < path.len() - 1 {
            assert(p[i] == path[i]);
            assert(p[i + 1] == path[i + 1]);
        } else {
            assert(p[i] == path.last());
        }
    }
    assert forall|i: int| 0 <= i < p.len() implies edges.contains(#[trigger] p[i]) by {
        if i < path.len() {
            assert(p[i] == path[i]);
        }
    }
    if path.len() > 0 {
        assert(p[0] == path[0]);
    }
}

} // verus!
