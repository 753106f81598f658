use std::collections::HashMap;
use std::collections::VecDeque;
use vstd::prelude::*;

use crate::graph::{lemma_endpoints_contains, lemma_out_edges_absent, out_edges, Edge, Graph};
use crate::grid::{Direction, Grid};
use crate::search::grid_graph::{grid_graph, moves};
use crate::path::{
    closed_under, distinct, distinct_edges, first_edge_to, meets, lemma_closed_set_unreachable, lemma_reachable_endpoints, lemma_distinct_nonempty, lemma_distinct_within,
    lemma_out_edges_in_list, legs_back, reachable, trail_wf, walk_back, walk_back_from, Waypoint,
};
use crate::search::probing::{
    closed_frontier, extends, in_frontier, lemma_extend_trail, lemma_extends_trans,
    lemma_frontier_after_push, lemma_frontier_after_take, lemma_stale_after_take,
    lemma_stale_extend, reached, stale, Discipline,
};

verus! {

broadcast use vstd::std_specs::hash::group_hash_axioms;

/// One half of a two-sided search: its waypoints, its queue of waypoint positions, and for
/// each expanded node the position of the waypoint it was expanded from.
struct Side {
    trail: Vec<Waypoint>,
    queue: VecDeque<usize>,
    visited: HashMap<usize, usize>,
}

/// Every edge leaving a visited node leads to a visited node, to the frontier, or to `cur`.
spec fn closed_or(
    g: Graph,
    visited: Set<usize>,
    trail: Seq<Waypoint>,
    deque: Seq<usize>,
    cur: usize,
) -> bool {
    forall|v: usize, k: int|
        visited.contains(v) && g.nodes_lookup@.contains_key(v) && 0 <= k
            < g.nodes_lookup@[v].edges@.len() ==> visited.contains(
            (#[trigger] g.nodes_lookup@[v].edges@[k]).destination,
        ) || in_frontier(trail, deque, g.nodes_lookup@[v].edges@[k].destination)
            || g.nodes_lookup@[v].edges@[k].destination == cur
}

impl Side {
    spec fn unvisited(&self, g: Graph) -> nat {
        g.nodes_lookup@.dom().difference(self.visited@.dom()).len()
    }

    spec fn pending(&self) -> nat {
        stale(self.trail@, self.queue@, self.visited@.dom())
    }

    /// What holds of a side between steps; `other_root` is the root of the other side.
    spec fn wf(&self, g: Graph, root: usize, other_root: usize) -> bool {
        let nodes = g.nodes_lookup@.dom();
        let vis = self.visited@.dom();
        &&& g.wf()
        &&& nodes.contains(root)
        &&& trail_wf(self.trail@)
        &&& self.trail@.len() >= 1
        &&& forall|m: int|
            0 <= m < self.queue@.len() ==> (#[trigger] self.queue@[m]) < self.trail@.len()
        &&& forall|i: int|
            0 <= i < self.trail@.len() ==> reached(g.edges@, self.trail@, i, root)
        &&& forall|i: int|
            0 <= i < self.trail@.len() ==> nodes.contains(#[trigger] self.trail@[i].node_id)
        &&& forall|v: usize|
            #[trigger] self.visited@.contains_key(v) ==> self.visited@[v] < self.trail@.len()
                && self.trail@[self.visited@[v] as int].node_id == v
        &&& vis.subset_of(nodes)
        &&& closed_frontier(g, vis, self.trail@, self.queue@)
        &&& vis.contains(root) || (self.queue@ == seq![0usize] && self.trail@[0].node_id
            == root)
        &&& root != other_root ==> !vis.contains(other_root) && !in_frontier(
            self.trail@,
            self.queue@,
            other_root,
        )
    }
}

/// A side that has not moved yet: its root waypoint waits alone, nothing is expanded.
spec fn fresh(s: Side, root: usize) -> bool {
    &&& s.trail@ == seq![Waypoint { leg: None, previous: None, node_id: root }]
    &&& s.queue@ == seq![0usize]
    &&& s.visited@ == Map::<usize, usize>::empty()
}

/// `start` differs from `target` and has an edge to it.
pub open spec fn direct_edge(g: Graph, start: usize, target: usize) -> bool {
    start != target && exists|k: int| first_edge_to(g.nodes_lookup@[start].edges@, target, k)
}

/// Every edge of `s` is an edge of `edges`.
spec fn within(edges: Seq<Edge>, s: Seq<Edge>) -> bool {
    forall|k: int| 0 <= k < s.len() ==> edges.contains(#[trigger] s[k])
}

/// Legs back from a reached waypoint are edges of the graph.
proof fn lemma_reached_within(edges: Seq<Edge>, trail: Seq<Waypoint>, i: int, root: usize)
    requires
        reached(edges, trail, i, root),
    ensures
        within(edges, legs_back(trail, i)),
{
}

/// Expands the oldest waypoint of `this`. Returns the edges found when it meets the other
/// side's root or a node the other side has expanded.
fn process_node(
    this: &mut Side,
    root: usize,
    other: &Side,
    other_root: usize,
    graph: &Graph,
) -> (r: Option<Vec<Edge>>)
    requires
        old(this).wf(*graph, root, other_root),
        other.wf(*graph, other_root, root),
    ensures
        r matches Some(s) ==> within(graph.edges@, s@) && s@.len() > 0 && meets(
            graph.edges@,
            s@,
            root,
            other_root,
        ),
        r.is_none() ==> final(this).wf(*graph, root, other_root),
        fresh(*old(this), root) && other.visited@ == Map::<usize, usize>::empty() && root
            != other_root ==> forall|k: int|
            first_edge_to(graph.nodes_lookup@[root].edges@, other_root, k) ==> r.is_some()
                && r.unwrap()@ == seq![graph.nodes_lookup@[root].edges@[k]],
        r.is_none() ==> final(this).unvisited(*graph) <= old(this).unvisited(*graph),
        r.is_none() && old(this).queue@.len() == 0 ==> final(this).queue@.len() == 0
            && final(this).unvisited(*graph) == old(this).unvisited(*graph) && final(this).pending()
            == old(this).pending(),
        r.is_none() && old(this).queue@.len() > 0 ==> final(this).unvisited(*graph) < old(
            this,
        ).unvisited(*graph) || final(this).pending() < old(this).pending(),
{
    let ghost nodes = graph.nodes_lookup@.dom();
    let ghost was_fresh = fresh(*old(this), root) && other.visited@ == Map::<usize, usize>::empty()
        && root != other_root;
    let ghost old_queue = this.queue@;
    let ghost old_vis = this.visited@.dom();
    let ghost trail_at_pop = this.trail@;
    let c = match this.queue.pop_front() {
        None => {
            return None;
        },
        Some(c) => c,
    };
    let current = this.trail[c];
    let cur = current.node_id;
    proof {
        lemma_frontier_after_take(trail_at_pop, old_queue, this.queue@, c, Discipline::Queue);
        lemma_stale_after_take(trail_at_pop, old_queue, this.queue@, c, old_vis, Discipline::Queue);
        let m = choose|m: int| 0 <= m < old_queue.len() && old_queue[m] == c;
        assert(c < this.trail@.len());
        assert(nodes.contains(cur));
        if !old_vis.contains(root) {
            assert(c == 0);
        }
    }
    let node = match graph.nodes_lookup.get(&cur) {
        None => {
            return None;
        },
        Some(node) => node,
    };
    let ghost after_pop = this.queue@;
    let mut j: usize = 0;
    while j < node.edges.len()
        invariant
            graph.wf(),
            nodes == graph.nodes_lookup@.dom(),
            other.wf(*graph, other_root, root),
            nodes.contains(root),
            graph.nodes_lookup@.contains_key(cur),
            *node == graph.nodes_lookup@[cur],
            c < this.trail@.len(),
            this.trail@[c as int].node_id == cur,
            this.visited@.dom() == old_vis,
            old_vis.contains(root) || cur == root,
            old_vis.subset_of(nodes),
            j <= node.edges@.len(),
            trail_wf(this.trail@),
            this.trail@.len() >= 1,
            extends(this.trail@, trail_at_pop),
            forall|m: int| 0 <= m < after_pop.len() ==> (#[trigger] after_pop[m]) < trail_at_pop.len(),
            forall|m: int| 0 <= m < this.queue@.len() ==> (#[trigger] this.queue@[m]) < this.trail@.len(),
            forall|i: int|
                0 <= i < this.trail@.len() ==> reached(graph.edges@, this.trail@, i, root),
            forall|i: int|
                0 <= i < this.trail@.len() ==> nodes.contains(#[trigger] this.trail@[i].node_id),
            forall|v: usize|
                #[trigger] this.visited@.contains_key(v) ==> this.visited@[v] < this.trail@.len()
                    && this.trail@[this.visited@[v] as int].node_id == v,
            closed_or(*graph, old_vis, this.trail@, this.queue@, cur),
            forall|k: int|
                0 <= k < j ==> old_vis.contains((#[trigger] node.edges@[k]).destination)
                    || in_frontier(this.trail@, this.queue@, node.edges@[k].destination),
            root != other_root ==> !old_vis.contains(other_root) && !in_frontier(
                this.trail@,
                this.queue@,
                other_root,
            ) && cur != other_root,
            stale(this.trail@, this.queue@, old_vis) <= stale(trail_at_pop, after_pop, old_vis),
            was_fresh == (fresh(*old(this), root) && other.visited@ == Map::<usize, usize>::empty()
                && root != other_root),
            was_fresh ==> cur == root && c == 0 && other.visited@ == Map::<usize, usize>::empty()
                && trail_at_pop == seq![Waypoint { leg: None, previous: None, node_id: root }]
                && forall|m: int| 0 <= m < j ==> (#[trigger] node.edges@[m]).destination != other_root,
        decreases node.edges@.len() - j,
    {
        let edge = node.edges[j];
        let destination = edge.destination;
        let ghost old_trail = this.trail@;
        proof {
            lemma_out_edges_in_list(graph.edges@, cur, j as int);
            let k = choose|k: int| 0 <= k < graph.edges@.len() && graph.edges@[k] == edge;
            lemma_endpoints_contains(graph.edges@, k);
        }
        if destination == other_root {
            this.trail.push(Waypoint::from(Some(edge), destination, Some(c)));
            let w = this.trail.len() - 1;
            proof {
                lemma_extend_trail(graph.edges@, old_trail, this.trail@, c, edge, root);
                lemma_reached_within(graph.edges@, this.trail@, w as int, root);
            }
            let legs = walk_back(&this.trail, w);
            let found = distinct(&legs);
            proof {
                lemma_distinct_within(legs@);
                assert(this.trail@[w as int].leg == Some(edge));
                lemma_distinct_nonempty(legs@);
                let none = Seq::<Edge>::empty();
                assert(legs@ + none =~= legs@);
                assert(reached(graph.edges@, this.trail@, w as int, root));
                assert(walk_back_from(graph.edges@, legs@, root, other_root));
                assert(found@ == distinct_edges(legs@ + none));
                if was_fresh {
                    assert(old_trail[0] == Waypoint { leg: None, previous: None, node_id: root });
                    assert(legs_back(old_trail, 0) =~= Seq::<Edge>::empty());
                    assert(legs@ =~= seq![edge]);
                    assert(distinct_edges(seq![edge]).len() == 1) by {
                        assert(seq![edge].drop_last() =~= Seq::<Edge>::empty());
                        assert(distinct_edges(Seq::<Edge>::empty()).len() == 0);
                    }
                    assert(found@ =~= seq![edge]) by {
                        assert(seq![edge].drop_last() =~= Seq::<Edge>::empty());
                    }
                    assert forall|k: int|
                        first_edge_to(graph.nodes_lookup@[root].edges@, other_root, k) implies k
                        == j by {
                        if k < j {
                            assert(node.edges@[k].destination != other_root);
                        }
                        if k > j {
                            assert(node.edges@[j as int].destination != other_root);
                        }
                    }
                    assert(edge == graph.nodes_lookup@[root].edges@[j as int]);
                    assert(found@ == seq![graph.nodes_lookup@[root].edges@[j as int]]);
                    assert forall|k: int|
                        first_edge_to(graph.nodes_lookup@[root].edges@, other_root, k) implies found@
                        == seq![graph.nodes_lookup@[root].edges@[k]] by {
                        assert(k == j);
                    }
                }
            }
            return Some(found);
        }
        match other.visited.get(&destination) {
            Some(o) => {
                let o = *o;
                this.trail.push(Waypoint::from(Some(edge), destination, Some(c)));
                let w = this.trail.len() - 1;
                proof {
                    lemma_extend_trail(graph.edges@, old_trail, this.trail@, c, edge, root);
                    lemma_reached_within(graph.edges@, this.trail@, w as int, root);
                    assert(other.visited@.contains_key(destination));
                    lemma_reached_within(graph.edges@, other.trail@, o as int, other_root);
                }
                let mut legs = walk_back(&this.trail, w);
                let mut other_legs = walk_back(&other.trail, o);
                let ghost a = legs@;
                let ghost b = other_legs@;
                legs.append(&mut other_legs);
                proof {
                    assert forall|k: int| 0 <= k < legs@.len() implies graph.edges@.contains(
                        #[trigger] legs@[k],
                    ) by {
                        if k < a.len() {
                            assert(legs@[k] == a[k]);
                        } else {
                            assert(legs@[k] == b[k - a.len()]);
                        }
                    }
                    lemma_distinct_within(legs@);
                    assert(this.trail@[w as int].leg == Some(edge));
                    assert(a.len() > 0);
                    lemma_distinct_nonempty(legs@);
                }
                let found = distinct(&legs);
                proof {
                    assert(reached(graph.edges@, this.trail@, w as int, root));
                    assert(walk_back_from(graph.edges@, a, root, destination));
                    assert(other.trail@[o as int].node_id == destination);
                    assert(reached(graph.edges@, other.trail@, o as int, other_root));
                    assert(found@ == distinct_edges(a + b));
                }
                return Some(found);
            },
            None => {},
        }
        if !this.visited.contains_key(&destination) {
            let ghost old_q = this.queue@;
            this.trail.push(Waypoint::from(Some(edge), destination, Some(c)));
            let w = this.trail.len() - 1;
            this.queue.push_back(w);
            proof {
                lemma_extend_trail(graph.edges@, old_trail, this.trail@, c, edge, root);
                lemma_frontier_after_push(old_trail, this.trail@, old_q, this.queue@, w);
                assert(this.trail@[this.queue@[this.queue@.len() - 1] as int].node_id
                    == destination);
                assert(stale(this.trail@, this.queue@, old_vis) == stale(
                    this.trail@,
                    old_q,
                    old_vis,
                )) by {
                    assert(this.queue@.drop_last() =~= old_q);
                }
                lemma_stale_extend(old_trail, this.trail@, old_q, old_vis);
                lemma_extends_trans(this.trail@, old_trail, trail_at_pop);
                assert forall|v: usize| #[trigger] this.visited@.contains_key(v) implies this.visited@[v]
                    < this.trail@.len() && this.trail@[this.visited@[v] as int].node_id == v by {
                    assert(this.trail@[this.visited@[v] as int] == old_trail[this.visited@[v] as int]);
                }
            }
        }
        j = j + 1;
    }
    let ghost old_unvisited = nodes.difference(old_vis);
    this.visited.insert(cur, c);
    proof {
        if was_fresh {
            assert forall|k: int| !first_edge_to(graph.nodes_lookup@[root].edges@, other_root, k) by {
                if 0 <= k < node.edges@.len() {
                    assert(node.edges@[k].destination != other_root);
                }
            }
        }
        lemma_stale_extend(trail_at_pop, this.trail@, after_pop, old_vis);
        if !old_vis.contains(cur) {
            vstd::set_lib::lemma_set_subset_finite(nodes, old_unvisited);
            assert(nodes.difference(this.visited@.dom()) =~= old_unvisited.remove(cur));
        } else {
            assert(this.visited@.dom() =~= old_vis);
            assert(nodes.difference(this.visited@.dom()) =~= old_unvisited);
        }
        assert(this.visited@.dom() == old_vis.insert(cur));
        assert forall|v: usize| #[trigger] this.visited@.contains_key(v) implies this.visited@[v]
            < this.trail@.len() && this.trail@[this.visited@[v] as int].node_id == v by {
            if v != cur {
                assert(old_vis.contains(v));
            }
        }
        assert(closed_frontier(*graph, this.visited@.dom(), this.trail@, this.queue@));
    }
    None
}

/// Breadth-first search from both ends at once, one step on each side in turn. It stops when
/// a side reaches the other side's root, or a node the other side has expanded; the result
/// holds the legs back from the meeting node on both sides, each edge once.
pub fn probe_graph(start: usize, target: usize, graph: &Graph) -> (r: Graph)
    requires
        graph.wf(),
        graph.nodes_lookup@.contains_key(start),
        graph.nodes_lookup@.contains_key(target),
    ensures
        r.wf(),
        r.node_position_lookup.is_none(),
        forall|k: int| 0 <= k < r.edges@.len() ==> graph.edges@.contains(#[trigger] r.edges@[k]),
        start != target && reachable(graph.edges@, start, target) ==> r.edges@.len() > 0,
        r.edges@.len() > 0 ==> meets(graph.edges@, r.edges@, start, target) || meets(
            graph.edges@,
            r.edges@,
            target,
            start,
        ),
        start != target ==> forall|k: int|
            first_edge_to(graph.nodes_lookup@[start].edges@, target, k) ==> r.edges@ == seq![
                graph.nodes_lookup@[start].edges@[k],
            ],
{
    let mut start_side = new_side(start, graph);
    let mut target_side = new_side(target, graph);
    proof {
        lemma_new_side(start_side, *graph, start, target);
        lemma_new_side(target_side, *graph, target, start);
    }
    while start_side.queue.len() > 0 || target_side.queue.len() > 0
        invariant
            start_side.wf(*graph, start, target),
            target_side.wf(*graph, target, start),
            direct_edge(*graph, start, target) ==> fresh(start_side, start) && fresh(
                target_side,
                target,
            ),
        decreases start_side.unvisited(*graph) + target_side.unvisited(*graph), start_side.pending()
            + target_side.pending(),
    {
        if let Some(found) = process_node(&mut start_side, start, &target_side, target, graph) {
            return Graph::from(found);
        }
        if let Some(found) = process_node(&mut target_side, target, &start_side, start, graph) {
            return Graph::from(found);
        }
    }
    proof {
        let vis = start_side.visited@.dom();
        if start != target {
            assert(vis.contains(start));
            assert(closed_under(*graph, vis)) by {
                assert forall|v: usize, k: int|
                    vis.contains(v) && graph.nodes_lookup@.contains_key(v) && 0 <= k
                        < graph.nodes_lookup@[v].edges@.len() implies vis.contains(
                    (#[trigger] graph.nodes_lookup@[v].edges@[k]).destination,
                ) by {
                    assert(!in_frontier(
                        start_side.trail@,
                        start_side.queue@,
                        graph.nodes_lookup@[v].edges@[k].destination,
                    ));
                }
            }
            lemma_closed_set_unreachable(*graph, vis, start, target);
        }
    }
    Graph::from(Vec::new())
}

/// The two-sided search between two cells, over the moves that the directions allow between
/// passable cells, as `probe_graph` searches a graph.
pub fn probe_grid(
    start_coord: (usize, usize),
    target_coord: (usize, usize),
    grid: &Grid,
    dirs: &[Direction],
) -> (r: Graph)
    requires
        grid.wf(),
        grid.inside(start_coord),
        grid.inside(target_coord),
    ensures
        r.wf(),
        r.node_position_lookup.is_none(),
        forall|k: int|
            0 <= k < r.edges@.len() ==> moves(*grid, dirs@).contains(#[trigger] r.edges@[k]),
        start_coord != target_coord && reachable(
            moves(*grid, dirs@),
            grid.id_of(start_coord) as usize,
            grid.id_of(target_coord) as usize,
        ) ==> r.edges@.len() > 0,
        r.edges@.len() > 0 ==> meets(
            moves(*grid, dirs@),
            r.edges@,
            grid.id_of(start_coord) as usize,
            grid.id_of(target_coord) as usize,
        ) || meets(
            moves(*grid, dirs@),
            r.edges@,
            grid.id_of(target_coord) as usize,
            grid.id_of(start_coord) as usize,
        ),
        start_coord != target_coord ==> forall|k: int|
            #[trigger] first_edge_to(
                out_edges(moves(*grid, dirs@), grid.id_of(start_coord) as usize),
                grid.id_of(target_coord) as usize,
                k,
            ) ==> r.edges@ == seq![
                out_edges(moves(*grid, dirs@), grid.id_of(start_coord) as usize)[k],
            ],
{
    let start = grid.node_id(start_coord).unwrap();
    let target = grid.node_id(target_coord).unwrap();
    proof {
        crate::grid::lemma_id_unique(*grid, start_coord, target_coord);
    }
    let graph = grid_graph(grid, dirs);
    if !graph.nodes_lookup.contains_key(&start) || !graph.nodes_lookup.contains_key(&target) {
        proof {
            if reachable(graph.edges@, start, target) {
                lemma_reachable_endpoints(graph.edges@, start, target);
            }
            if !graph.nodes_lookup@.contains_key(start) {
                lemma_out_edges_absent(graph.edges@, start);
            }
            assert forall|k: int|
                !first_edge_to(out_edges(graph.edges@, start), target, k) by {
                if first_edge_to(out_edges(graph.edges@, start), target, k) {
                    lemma_out_edges_in_list(graph.edges@, start, k);
                    let i = choose|i: int|
                        0 <= i < graph.edges@.len() && graph.edges@[i] == out_edges(
                            graph.edges@,
                            start,
                        )[k];
                    lemma_endpoints_contains(graph.edges@, i);
                }
            }
        }
        return Graph::from(Vec::new());
    }
    probe_graph(start, target, &graph)
}

fn new_side(root: usize, graph: &Graph) -> (r: Side)
    ensures
        r.trail@ == seq![Waypoint { leg: None, previous: None, node_id: root }],
        r.queue@ == seq![0usize],
        r.visited@ == Map::<usize, usize>::empty(),
{
    let mut trail: Vec<Waypoint> = Vec::new();
    trail.push(Waypoint::from(None, root, None));
    let mut queue: VecDeque<usize> = VecDeque::new();
    queue.push_back(0);
    assert(trail@ =~= seq![Waypoint { leg: None, previous: None, node_id: root }]);
    assert(queue@ =~= seq![0usize]);
    Side { trail, queue, visited: HashMap::new() }
}

proof fn lemma_new_side(s: Side, g: Graph, root: usize, other_root: usize)
    requires
        g.wf(),
        g.nodes_lookup@.contains_key(root),
        g.nodes_lookup@.contains_key(other_root),
        s.trail@ == seq![Waypoint { leg: None, previous: None, node_id: root }],
        s.queue@ == seq![0usize],
        s.visited@ == Map::<usize, usize>::empty(),
    ensures
        s.wf(g, root, other_root),
{
    assert(legs_back(s.trail@, 0) =~= Seq::<Edge>::empty());
    assert(s.visited@.dom() =~= Set::<usize>::empty());
    if root != other_root {
        assert(!in_frontier(s.trail@, s.queue@, other_root)) by {
            if in_frontier(s.trail@, s.queue@, other_root) {
                let m = choose|m: int| 0 <= m < s.queue@.len() && (#[trigger] s.trail@[s.queue@[m] as int]).node_id == other_root;
                assert(s.queue@[m] == 0);
            }
        }
    }
}

} // verus!
