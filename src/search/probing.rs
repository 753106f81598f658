use std::collections::HashSet;
use std::collections::VecDeque;
use vstd::prelude::*;

use crate::graph::{lemma_endpoints_contains, Edge, Graph};
use crate::grid::Grid;
use crate::grid::Direction;
use crate::search::grid_graph::{grid_graph, moves};
use crate::path::{
    closed_under, is_walk, lemma_closed_set_unreachable, lemma_out_edges_in_list, no_repeat,
    lemma_reachable_endpoints, legs_back,
    reachable, trail_wf, walk_back, walk_back_from, Waypoint,
};

verus! {

broadcast use vstd::std_specs::hash::group_hash_axioms;

/// Which end of the frontier the next waypoint leaves from.
#[derive(Clone, Copy, Debug, PartialEq, Eq, Structural)]
pub enum Discipline {
    /// Last in, first out: depth-first order.
    Stack,
    /// First in, first out: breadth-first order.
    Queue,
}

/// Some waypoint of the frontier stands at node `x`.
pub open spec fn in_frontier(trail: Seq<Waypoint>, deque: Seq<usize>, x: usize) -> bool {
    exists|m: int| 0 <= m < deque.len() && (#[trigger] trail[deque[m] as int]).node_id == x
}

/// The legs back from waypoint `i` are a walk from `start` to its node, or it is a start.
pub open spec fn reached(edges: Seq<Edge>, trail: Seq<Waypoint>, i: int, start: usize) -> bool {
    let l = legs_back(trail, i);
    (l.len() == 0 && trail[i].node_id == start) || walk_back_from(
        edges,
        l,
        start,
        trail[i].node_id,
    )
}

/// The frontier entries whose node has been visited already.
pub open spec fn stale(trail: Seq<Waypoint>, deque: Seq<usize>, visited: Set<usize>) -> nat
    decreases deque.len(),
{
    if deque.len() == 0 {
        0
    } else {
        stale(trail, deque.drop_last(), visited) + if visited.contains(
            trail[deque.last() as int].node_id,
        ) {
            1nat
        } else {
            0nat
        }
    }
}

/// The legs back from waypoint `i` repeat no node, and all their nodes but the waypoint's own
/// are visited.
pub open spec fn settled(trail: Seq<Waypoint>, i: int, start: usize, visited: Set<usize>) -> bool {
    &&& no_repeat(legs_back(trail, i), start)
    &&& forall|k: int|
        1 <= k < legs_back(trail, i).len() ==> visited.contains(
            (#[trigger] legs_back(trail, i)[k]).destination,
        )
}

/// Each edge leaving a visited node leads to a visited node or to the frontier, except the
/// edges from index `j` on of the node `cur` now being expanded.
pub open spec fn closed_but(
    g: Graph,
    visited: Set<usize>,
    trail: Seq<Waypoint>,
    deque: Seq<usize>,
    cur: usize,
    j: int,
) -> bool {
    forall|v: usize, k: int|
        visited.contains(v) && g.nodes_lookup@.contains_key(v) && 0 <= k
            < g.nodes_lookup@[v].edges@.len() && !(v == cur && k >= j) ==> visited.contains(
            (#[trigger] g.nodes_lookup@[v].edges@[k]).destination,
        ) || in_frontier(trail, deque, g.nodes_lookup@[v].edges@[k].destination)
}

/// Each edge leaving a visited node leads to a visited node or to the frontier.
pub open spec fn closed_frontier(
    g: Graph,
    visited: Set<usize>,
    trail: Seq<Waypoint>,
    deque: Seq<usize>,
) -> bool {
    forall|v: usize, k: int|
        visited.contains(v) && g.nodes_lookup@.contains_key(v) && 0 <= k
            < g.nodes_lookup@[v].edges@.len() ==> visited.contains(
            (#[trigger] g.nodes_lookup@[v].edges@[k]).destination,
        ) || in_frontier(trail, deque, g.nodes_lookup@[v].edges@[k].destination)
}

/// `t` begins with `s`.
pub open spec fn extends(t: Seq<Waypoint>, s: Seq<Waypoint>) -> bool {
    s.len() <= t.len() && forall|i: int| 0 <= i < s.len() ==> #[trigger] t[i] == s[i]
}

/// The number of legs back from waypoint `i` to the start of its chain.
pub open spec fn depth(trail: Seq<Waypoint>, i: int) -> nat {
    legs_back(trail, i).len()
}

/// Node `x` is `start`, or is reached from `start` by at most `k` edges of the graph.
pub open spec fn within_steps(g: Graph, start: usize, x: usize, k: nat) -> bool
    decreases k,
{
    x == start || (k > 0 && exists|y: usize, j: int|
        #![trigger g.nodes_lookup@[y].edges@[j]]
        within_steps(g, start, y, (k - 1) as nat) && g.nodes_lookup@.contains_key(y) && 0 <= j
            < g.nodes_lookup@[y].edges@.len() && g.nodes_lookup@[y].edges@[j].destination == x)
}

/// Some frontier entry stands at `x` with at most `k` legs behind it.
pub open spec fn queued_within(trail: Seq<Waypoint>, deque: Seq<usize>, x: usize, k: nat) -> bool {
    exists|m: int|
        0 <= m < deque.len() && (#[trigger] trail[deque[m] as int]).node_id == x && depth(
            trail,
            deque[m] as int,
        ) <= k
}

/// The frontier's depths never decrease from front to back, and lie between `level` and
/// `level + 1`.
pub open spec fn levels_ok(trail: Seq<Waypoint>, deque: Seq<usize>, level: nat) -> bool {
    &&& forall|m: int|
        0 <= m < deque.len() ==> level <= depth(trail, #[trigger] deque[m] as int) <= level + 1
    &&& forall|m: int, n: int|
        0 <= m < n < deque.len() ==> depth(trail, #[trigger] deque[m] as int) <= depth(
            trail,
            #[trigger] deque[n] as int,
        )
}

/// Nodes within fewer than `level` steps are visited; nodes within `k <= level` steps are
/// visited or wait in the frontier with at most `k` legs behind them.
pub open spec fn layered(
    g: Graph,
    start: usize,
    visited: Set<usize>,
    trail: Seq<Waypoint>,
    deque: Seq<usize>,
    level: nat,
) -> bool {
    &&& forall|x: usize, k: nat|
        k < level && #[trigger] within_steps(g, start, x, k) ==> visited.contains(x)
    &&& forall|x: usize, k: nat|
        k <= level && #[trigger] within_steps(g, start, x, k) ==> visited.contains(x)
            || queued_within(trail, deque, x, k)
}

/// Takes the newest waypoint.
pub fn pop(stack: &mut VecDeque<usize>) -> (r: Option<usize>)
    ensures
        old(stack)@.len() == 0 ==> r.is_none() && final(stack)@ == old(stack)@,
        old(stack)@.len() > 0 ==> r == Some(old(stack)@.last()) && final(stack)@ == old(
            stack,
        )@.drop_last(),
{
    stack.pop_back()
}

/// Takes the oldest waypoint.
pub fn dequeue(queue: &mut VecDeque<usize>) -> (r: Option<usize>)
    ensures
        old(queue)@.len() == 0 ==> r.is_none() && final(queue)@ == old(queue)@,
        old(queue)@.len() > 0 ==> r == Some(old(queue)@[0]) && final(queue)@ == old(
            queue,
        )@.subrange(1, old(queue)@.len() as int),
{
    queue.pop_front()
}

/// Takes the next waypoint by the discipline.
pub fn take_next(deque: &mut VecDeque<usize>, discipline: Discipline) -> (r: Option<usize>)
    ensures
        old(deque)@.len() == 0 ==> r.is_none() && final(deque)@ == old(deque)@,
        old(deque)@.len() > 0 ==> match discipline {
            Discipline::Stack => r == Some(old(deque)@.last()) && final(deque)@ == old(
                deque,
            )@.drop_last(),
            Discipline::Queue => r == Some(old(deque)@[0]) && final(deque)@ == old(
                deque,
            )@.subrange(1, old(deque)@.len() as int),
        },
{
    match discipline {
        Discipline::Stack => pop(deque),
        Discipline::Queue => dequeue(deque),
    }
}

/// Depth-first or breadth-first search from `start` for `target`. The target counts as found
/// the first time an edge reaches it; the result holds the legs from the target back to
/// `start`, in that order.
pub fn probe_graph(start: usize, target: usize, graph: &Graph, control_flow: Discipline) -> (r:
    Graph)
    requires
        graph.wf(),
        graph.nodes_lookup@.contains_key(start),
    ensures
        r.wf(),
        r.node_position_lookup.is_none(),
        r.edges@.len() > 0 ==> walk_back_from(graph.edges@, r.edges@, start, target),
        r.edges@.len() > 0 ==> no_repeat(r.edges@, start),
        r.edges@.len() == 0 <==> (start == target || !reachable(graph.edges@, start, target)),
        control_flow == Discipline::Queue && r.edges@.len() > 0 ==> forall|w: Seq<Edge>|
            is_walk(graph.edges@, w, start, target) ==> r.edges@.len() <= w.len(),
{
    let mut trail: Vec<Waypoint> = Vec::new();
    trail.push(Waypoint::from(None, start, None));
    let mut deque: VecDeque<usize> = VecDeque::new();
    deque.push_back(0);
    let mut visited: HashSet<usize> = HashSet::new();
    let ghost nodes = graph.nodes_lookup@.dom();
    proof {
        assert(in_frontier(trail@, deque@, start)) by {
            assert(trail@[deque@[0] as int].node_id == start);
        }
        assert(deque@ =~= seq![0usize]);
        assert(!visited@.contains(start));
        assert(stale(trail@, deque@.drop_last(), visited@) == 0);
        assert(stale(trail@, deque@, visited@) == 0);
        assert(legs_back(trail@, 0) =~= Seq::<Edge>::empty());
        assert forall|x: usize, k: nat| k <= 0 && #[trigger] within_steps(*graph, start, x, k)
            implies visited@.contains(x) || queued_within(trail@, deque@, x, k) by {
            assert(trail@[deque@[0] as int].node_id == start);
        }
    }
    let ghost mut level: nat = 0;
    loop
        invariant
            graph.wf(),
            nodes == graph.nodes_lookup@.dom(),
            nodes.contains(start),
            trail_wf(trail@),
            trail@.len() >= 1,
            forall|m: int| 0 <= m < deque@.len() ==> (#[trigger] deque@[m]) < trail@.len(),
            forall|i: int| 0 <= i < trail@.len() ==> reached(graph.edges@, trail@, i, start),
            forall|i: int| 0 <= i < trail@.len() ==> settled(trail@, i, start, visited@),
            forall|i: int| 0 <= i < trail@.len() ==> nodes.contains(#[trigger] trail@[i].node_id),
            visited@.subset_of(nodes),
            closed_frontier(*graph, visited@, trail@, deque@),
            visited@.contains(start) || (deque@ == seq![0usize] && trail@[0].node_id == start),
            start != target ==> !visited@.contains(target) && !in_frontier(
                trail@,
                deque@,
                target,
            ),
            control_flow == Discipline::Queue ==> levels_ok(trail@, deque@, level) && layered(
                *graph,
                start,
                visited@,
                trail@,
                deque@,
                level,
            ),
        decreases nodes.difference(visited@).len(), stale(trail@, deque@, visited@),
    {
        let ghost old_deque = deque@;
        let ghost old_visited = visited@;
        let next = take_next(&mut deque, control_flow);
        let c = match next {
            None => {
                proof {
                    if start != target {
                        assert(visited@.contains(start));
                        assert(closed_under(*graph, visited@)) by {
                            assert forall|v: usize, k: int|
                                visited@.contains(v) && graph.nodes_lookup@.contains_key(v) && 0
                                    <= k < graph.nodes_lookup@[v].edges@.len() implies visited@.contains(
                                (#[trigger] graph.nodes_lookup@[v].edges@[k]).destination,
                            ) by {
                                assert(!in_frontier(
                                    trail@,
                                    deque@,
                                    graph.nodes_lookup@[v].edges@[k].destination,
                                ));
                            }
                        }
                        lemma_closed_set_unreachable(*graph, visited@, start, target);
                    }
                }
                return Graph::from(Vec::new());
            },
            Some(c) => c,
        };
        let current = trail[c];
        let cur = current.node_id;
        proof {
            lemma_frontier_after_take(trail@, old_deque, deque@, c, control_flow);
            lemma_stale_after_take(trail@, old_deque, deque@, c, visited@, control_flow);
        }
        let ghost trail_at_pop = trail@;
        proof {
            let m = choose|m: int| 0 <= m < old_deque.len() && old_deque[m] == c;
            assert(c < trail@.len());
            assert(nodes.contains(cur));
            if !old_visited.contains(start) {
                assert(c == 0);
            }
        }
        match graph.nodes_lookup.get(&cur) {
            None => {},
            Some(node) => {
                visited.insert(cur);
                proof {
                    if control_flow == Discipline::Queue {
                        lemma_layers_after_pop(
                            *graph,
                            start,
                            old_visited,
                            trail@,
                            old_deque,
                            deque@,
                            level,
                        );
                        level = depth(trail@, c as int);
                    }
                }
                let ghost unvisited_before = nodes.difference(old_visited);
                proof {
                    assert forall|i: int| 0 <= i < trail@.len() implies settled(
                        trail@,
                        i,
                        start,
                        visited@,
                    ) by {
                        assert(settled(trail@, i, start, old_visited));
                    }
                    if !old_visited.contains(cur) {
                        vstd::set_lib::lemma_set_subset_finite(nodes, unvisited_before);
                        assert(nodes.difference(visited@) =~= unvisited_before.remove(cur));
                    } else {
                        assert(nodes.difference(visited@) =~= unvisited_before);
                    }
                }
                let ghost after_pop = deque@;
                let ghost visited_now = visited@;
                let ghost trail_start = trail@;
                let mut j: usize = 0;
                while j < node.edges.len()
                    invariant
                        graph.wf(),
                        nodes == graph.nodes_lookup@.dom(),
                        nodes.contains(start),
                        graph.nodes_lookup@.contains_key(cur),
                        *node == graph.nodes_lookup@[cur],
                        c < trail@.len(),
                        trail@[c as int].node_id == cur,
                        visited@ == visited_now,
                        visited@.contains(cur),
                        visited@.contains(start),
                        visited@.subset_of(nodes),
                        j <= node.edges@.len(),
                        trail_wf(trail@),
                        trail@.len() >= 1,
                        extends(trail@, trail_start),
                        forall|m: int|
                            0 <= m < after_pop.len() ==> (#[trigger] after_pop[m]) < trail_start.len(),
                        forall|m: int|
                            0 <= m < deque@.len() ==> (#[trigger] deque@[m]) < trail@.len(),
                        forall|i: int|
                            0 <= i < trail@.len() ==> reached(graph.edges@, trail@, i, start),
                        forall|i: int|
                            0 <= i < trail@.len() ==> settled(trail@, i, start, visited@),
                        forall|i: int|
                            0 <= i < trail@.len() ==> nodes.contains(#[trigger] trail@[i].node_id),
                        closed_but(*graph, visited@, trail@, deque@, cur, j as int),
                        start != target ==> !visited@.contains(target) && !in_frontier(
                            trail@,
                            deque@,
                            target,
                        ),
                        stale(trail@, deque@, visited@) <= stale(trail_start, after_pop, visited@),
                        control_flow == Discipline::Queue ==> levels_ok(trail@, deque@, level)
                            && layered(*graph, start, visited@, trail@, deque@, level) && depth(
                            trail@,
                            c as int,
                        ) == level,
                    decreases node.edges@.len() - j,
                {
                    let edge = node.edges[j];
                    let destination = edge.destination;
                    if !visited.contains(&destination) {
                        let ghost old_trail = trail@;
                        let ghost old_q = deque@;
                        trail.push(Waypoint::from(Some(edge), destination, Some(c)));
                        let w = trail.len() - 1;
                        deque.push_back(w);
                        proof {
                            lemma_out_edges_in_list(graph.edges@, cur, j as int);
                            let k = choose|k: int|
                                0 <= k < graph.edges@.len() && graph.edges@[k] == edge;
                            lemma_endpoints_contains(graph.edges@, k);
                            lemma_extend_trail(graph.edges@, old_trail, trail@, c, edge, start);
                            lemma_settled_push(graph.edges@, old_trail, trail@, c, edge, start, visited@);
                            lemma_frontier_after_push(old_trail, trail@, old_q, deque@, w);
                            assert(trail@[deque@[deque@.len() - 1] as int].node_id == destination);
                            assert(stale(trail@, deque@, visited@) == stale(trail@, old_q, visited@)) by {
                                assert(deque@.drop_last() =~= old_q);
                            }
                            lemma_stale_extend(old_trail, trail@, old_q, visited@);
                            lemma_extends_trans(trail@, old_trail, trail_start);
                            if control_flow == Discipline::Queue {
                                lemma_layers_after_push(
                                    *graph,
                                    start,
                                    visited@,
                                    old_trail,
                                    trail@,
                                    old_q,
                                    deque@,
                                    w,
                                    level,
                                );
                            }
                        }
                        if destination == target {
                            let edges = walk_back(&trail, w);
                            proof {
                                assert(reached(graph.edges@, trail@, w as int, start));
                                assert(settled(trail@, w as int, start, visited@));
                                assert(trail@[w as int].leg == Some(edge));
                                assert(legs_back(trail@, w as int).len() > 0);
                                assert(edges@.len() > 0);
                                lemma_walk_back_reachable(graph.edges@, edges@, start, target);
                                if control_flow == Discipline::Queue {
                                    assert forall|p: Seq<Edge>|
                                        is_walk(graph.edges@, p, start, target) implies edges@.len()
                                        <= p.len() by {
                                        if p.len() <= level {
                                            lemma_walk_within(*graph, p, start, target);
                                            lemma_within_more(*graph, start, target, p.len(), level);
                                            assert(within_steps(*graph, start, target, level));
                                            if queued_within(old_trail, old_q, target, level) {
                                                let m = choose|m: int|
                                                    0 <= m < old_q.len()
                                                        && (#[trigger] old_trail[old_q[m] as int]).node_id
                                                        == target && depth(old_trail, old_q[m] as int)
                                                        <= level;
                                                assert(in_frontier(old_trail, old_q, target));
                                            }
                                        }
                                    }
                                }
                            }
                            return Graph::from(edges);
                        }
                    }
                    j = j + 1;
                }
                proof {
                    assert(closed_frontier(*graph, visited@, trail@, deque@));
                    if old_visited.contains(cur) {
                        assert(visited@ =~= old_visited);
                        assert(stale(trail_at_pop, old_deque, old_visited) == stale(
                            trail_at_pop,
                            after_pop,
                            old_visited,
                        ) + 1);
                        assert(stale(trail@, deque@, visited@) < stale(
                            trail_at_pop,
                            old_deque,
                            old_visited,
                        ));
                    }
                }
            },
        }
    }
}

/// Depth-first or breadth-first search between two cells, over the moves that the directions
/// allow between passable cells, as `probe_graph` searches a graph.
pub fn probe_grid(
    start_coord: (usize, usize),
    target_coord: (usize, usize),
    grid: &Grid,
    directions: &[Direction],
    control_flow: Discipline,
) -> (r: Graph)
    requires
        grid.wf(),
        grid.inside(start_coord),
        grid.inside(target_coord),
    ensures
        r.wf(),
        r.node_position_lookup.is_none(),
        r.edges@.len() > 0 ==> walk_back_from(
            moves(*grid, directions@),
            r.edges@,
            grid.id_of(start_coord) as usize,
            grid.id_of(target_coord) as usize,
        ),
        r.edges@.len() == 0 <==> (start_coord == target_coord || !reachable(
            moves(*grid, directions@),
            grid.id_of(start_coord) as usize,
            grid.id_of(target_coord) as usize,
        )),
        r.edges@.len() > 0 ==> no_repeat(r.edges@, grid.id_of(start_coord) as usize),
        control_flow == Discipline::Queue && r.edges@.len() > 0 ==> forall|w: Seq<Edge>|
            #[trigger] is_walk(
                moves(*grid, directions@),
                w,
                grid.id_of(start_coord) as usize,
                grid.id_of(target_coord) as usize,
            ) ==> r.edges@.len() <= w.len(),
{
    let start = grid.node_id(start_coord).unwrap();
    let target = grid.node_id(target_coord).unwrap();
    proof {
        crate::grid::lemma_id_unique(*grid, start_coord, target_coord);
    }
    let graph = grid_graph(grid, directions);
    if !graph.nodes_lookup.contains_key(&start) {
        proof {
            if reachable(graph.edges@, start, target) {
                lemma_reachable_endpoints(graph.edges@, start, target);
            }
        }
        return Graph::from(Vec::new());
    }
    probe_graph(start, target, &graph, control_flow)
}

proof fn lemma_layers_after_pop(
    g: Graph,
    start: usize,
    old_visited: Set<usize>,
    trail: Seq<Waypoint>,
    old_q: Seq<usize>,
    new_q: Seq<usize>,
    level: nat,
)
    requires
        g.wf(),
        old_q.len() > 0,
        new_q == old_q.subrange(1, old_q.len() as int),
        levels_ok(trail, old_q, level),
        layered(g, start, old_visited, trail, old_q, level),
        closed_frontier(g, old_visited, trail, old_q),
    ensures
        levels_ok(trail, new_q, depth(trail, old_q[0] as int)),
        layered(
            g,
            start,
            old_visited.insert(trail[old_q[0] as int].node_id),
            trail,
            new_q,
            depth(trail, old_q[0] as int),
        ),
{
    let d = depth(trail, old_q[0] as int);
    let cur = trail[old_q[0] as int].node_id;
    let nv = old_visited.insert(cur);
    assert(level <= d <= level + 1);
    assert forall|m: int| 0 <= m < new_q.len() implies d <= depth(trail, #[trigger] new_q[m] as int)
        <= d + 1 by {
        assert(new_q[m] == old_q[m + 1]);
        assert(depth(trail, old_q[0] as int) <= depth(trail, old_q[m + 1] as int));
    }
    assert forall|m: int, n: int| 0 <= m < n < new_q.len() implies depth(
        trail,
        #[trigger] new_q[m] as int,
    ) <= depth(trail, #[trigger] new_q[n] as int) by {
        assert(new_q[m] == old_q[m + 1]);
        assert(new_q[n] == old_q[n + 1]);
    }
    // Everything within `level` steps is visited once the front is one level deeper.
    assert forall|x: usize, k: nat|
        d == level + 1 && k <= level && #[trigger] within_steps(g, start, x, k) implies old_visited.contains(
        x,
    ) by {
        if queued_within(trail, old_q, x, k) {
            let m = choose|m: int|
                0 <= m < old_q.len() && (#[trigger] trail[old_q[m] as int]).node_id == x && depth(
                    trail,
                    old_q[m] as int,
                ) <= k;
            if m > 0 {
                assert(depth(trail, old_q[0] as int) <= depth(trail, old_q[m] as int));
            }
        }
    }
    assert forall|x: usize, k: nat| k < d && #[trigger] within_steps(g, start, x, k) implies nv.contains(
        x,
    ) by {
        if d == level {
        } else {
            assert(old_visited.contains(x));
        }
    }
    assert forall|x: usize, k: nat| k <= d && #[trigger] within_steps(g, start, x, k) implies nv.contains(
        x,
    ) || queued_within(trail, new_q, x, k) by {
        if k < d {
        } else if d == level {
            if !old_visited.contains(x) {
                let m = choose|m: int|
                    0 <= m < old_q.len() && (#[trigger] trail[old_q[m] as int]).node_id == x
                        && depth(trail, old_q[m] as int) <= k;
                if m > 0 {
                    assert(new_q[m - 1] == old_q[m]);
                    assert(trail[new_q[m - 1] as int].node_id == x);
                }
            }
        } else {
            if x != start {
                let (y, j) = choose|y: usize, j: int|
                    #![trigger g.nodes_lookup@[y].edges@[j]]
                    within_steps(g, start, y, (k - 1) as nat) && g.nodes_lookup@.contains_key(y)
                        && 0 <= j < g.nodes_lookup@[y].edges@.len()
                        && g.nodes_lookup@[y].edges@[j].destination == x;
                assert(old_visited.contains(y));
                let e = g.nodes_lookup@[y].edges@[j];
                if !old_visited.contains(x) {
                    assert(in_frontier(trail, old_q, x));
                    let m = choose|m: int|
                        0 <= m < old_q.len() && (#[trigger] trail[old_q[m] as int]).node_id == x;
                    if m > 0 {
                        assert(new_q[m - 1] == old_q[m]);
                        assert(trail[new_q[m - 1] as int].node_id == x);
                        assert(depth(trail, new_q[m - 1] as int) <= level + 1);
                    }
                }
            } else {
                assert(within_steps(g, start, x, 0));
            }
        }
    }
}

proof fn lemma_layers_after_push(
    g: Graph,
    start: usize,
    visited: Set<usize>,
    old_trail: Seq<Waypoint>,
    new_trail: Seq<Waypoint>,
    old_q: Seq<usize>,
    new_q: Seq<usize>,
    w: usize,
    level: nat,
)
    requires
        extends(new_trail, old_trail),
        new_trail.len() == old_trail.len() + 1,
        w == new_trail.len() - 1,
        new_q == old_q.push(w),
        forall|m: int| 0 <= m < old_q.len() ==> (#[trigger] old_q[m]) < old_trail.len(),
        forall|i: int|
            0 <= i < old_trail.len() ==> #[trigger] legs_back(new_trail, i) == legs_back(
                old_trail,
                i,
            ),
        depth(new_trail, w as int) == level + 1,
        levels_ok(old_trail, old_q, level),
        layered(g, start, visited, old_trail, old_q, level),
    ensures
        levels_ok(new_trail, new_q, level),
        layered(g, start, visited, new_trail, new_q, level),
{
    assert forall|m: int| 0 <= m < old_q.len() implies depth(new_trail, #[trigger] old_q[m] as int)
        == depth(old_trail, old_q[m] as int) && new_trail[old_q[m] as int] == old_trail[old_q[m] as int] by {
        assert(old_q[m] < old_trail.len());
        assert(legs_back(new_trail, old_q[m] as int) == legs_back(old_trail, old_q[m] as int));
    }
    assert forall|m: int| 0 <= m < new_q.len() implies level <= depth(new_trail, #[trigger] new_q[m] as int)
        <= level + 1 by {
        if m < old_q.len() {
            assert(new_q[m] == old_q[m]);
        }
    }
    assert forall|m: int, n: int| 0 <= m < n < new_q.len() implies depth(
        new_trail,
        #[trigger] new_q[m] as int,
    ) <= depth(new_trail, #[trigger] new_q[n] as int) by {
        assert(new_q[m] == old_q[m]);
        if n < old_q.len() {
            assert(new_q[n] == old_q[n]);
        }
    }
    assert forall|x: usize, k: nat| k <= level && #[trigger] within_steps(g, start, x, k) implies visited.contains(
        x,
    ) || queued_within(new_trail, new_q, x, k) by {
        if !visited.contains(x) {
            let m = choose|m: int|
                0 <= m < old_q.len() && (#[trigger] old_trail[old_q[m] as int]).node_id == x && depth(
                    old_trail,
                    old_q[m] as int,
                ) <= k;
            assert(new_q[m] == old_q[m]);
            assert(new_trail[new_q[m] as int].node_id == x);
        }
    }
}

proof fn lemma_settled_push(
    edges: Seq<Edge>,
    old_trail: Seq<Waypoint>,
    new_trail: Seq<Waypoint>,
    c: usize,
    edge: Edge,
    start: usize,
    visited: Set<usize>,
)
    requires
        c < old_trail.len(),
        reached(edges, old_trail, c as int, start),
        forall|i: int| 0 <= i < old_trail.len() ==> settled(old_trail, i, start, visited),
        visited.contains(old_trail[c as int].node_id),
        visited.contains(start),
        !visited.contains(edge.destination),
        new_trail.len() == old_trail.len() + 1,
        forall|i: int|
            0 <= i < old_trail.len() ==> #[trigger] legs_back(new_trail, i) == legs_back(
                old_trail,
                i,
            ),
        legs_back(new_trail, old_trail.len() as int) == seq![edge] + legs_back(
            old_trail,
            c as int,
        ),
    ensures
        forall|i: int| 0 <= i < new_trail.len() ==> settled(new_trail, i, start, visited),
{
    let l = legs_back(old_trail, c as int);
    let nl = legs_back(new_trail, old_trail.len() as int);
    assert(settled(old_trail, c as int, start, visited));
    assert forall|k: int| 0 <= k < l.len() implies visited.contains((#[trigger] l[k]).destination) by {
        if k == 0 {
            assert(l[0].destination == old_trail[c as int].node_id);
        }
    }
    assert forall|k: int| 1 <= k < nl.len() implies visited.contains((#[trigger] nl[k]).destination) by {
        assert(nl[k] == l[k - 1]);
    }
    assert forall|a: int, b: int| 0 <= a < b < nl.len() implies (#[trigger] nl[a]).destination
        != (#[trigger] nl[b]).destination by {
        assert(nl[b] == l[b - 1]);
        if a > 0 {
            assert(nl[a] == l[a - 1]);
        }
    }
    assert forall|a: int| 0 <= a < nl.len() implies (#[trigger] nl[a]).destination != start by {
        if a > 0 {
            assert(nl[a] == l[a - 1]);
        }
    }
    assert forall|i: int| 0 <= i < new_trail.len() implies settled(new_trail, i, start, visited) by {
        if i < old_trail.len() {
            assert(legs_back(new_trail, i) == legs_back(old_trail, i));
            assert(settled(old_trail, i, start, visited));
        }
    }
}

/// Between two nodes, a breadth-first result is no longer than a depth-first one: the first is
/// no longer than any walk, and the second read backwards is a walk.
pub proof fn lemma_breadth_first_not_longer(
    edges: Seq<Edge>,
    breadth_first: Seq<Edge>,
    depth_first: Seq<Edge>,
    start: usize,
    target: usize,
)
    requires
        forall|w: Seq<Edge>| is_walk(edges, w, start, target) ==> breadth_first.len() <= w.len(),
        walk_back_from(edges, depth_first, start, target),
    ensures
        breadth_first.len() <= depth_first.len(),
{
    lemma_walk_back_reachable(edges, depth_first, start, target);
    assert(is_walk(edges, depth_first.reverse(), start, target));
}

/// A walk of `n` edges from `start` reaches its end within `n` steps.
proof fn lemma_walk_within(g: Graph, w: Seq<Edge>, start: usize, x: usize)
    requires
        g.wf(),
        is_walk(g.edges@, w, start, x),
    ensures
        within_steps(g, start, x, w.len() as nat),
{
    lemma_walk_prefix_within(g, w, start, x, w.len() - 1);
}

proof fn lemma_walk_prefix_within(g: Graph, w: Seq<Edge>, start: usize, x: usize, i: int)
    requires
        g.wf(),
        is_walk(g.edges@, w, start, x),
        0 <= i < w.len(),
    ensures
        within_steps(g, start, w[i].destination, (i + 1) as nat),
    decreases i,
{
    let e = w[i];
    if i > 0 {
        lemma_walk_prefix_within(g, w, start, x, i - 1);
        assert(w[i - 1].destination == w[i].source);
    }
    assert(within_steps(g, start, e.source, i as nat));
    assert(g.edges@.contains(e));
    let k = choose|k: int| 0 <= k < g.edges@.len() && g.edges@[k] == e;
    crate::path::lemma_edge_in_out_edges(g.edges@, k);
    lemma_endpoints_contains(g.edges@, k);
    let o = g.nodes_lookup@[e.source].edges@;
    let j = choose|j: int| 0 <= j < o.len() && o[j] == e;
    assert(g.nodes_lookup@[e.source].edges@[j].destination == e.destination);
}

/// Being within `k` steps implies being within any larger number of steps.
proof fn lemma_within_more(g: Graph, start: usize, x: usize, k: nat, more: nat)
    requires
        within_steps(g, start, x, k),
        k <= more,
    ensures
        within_steps(g, start, x, more),
    decreases more,
{
    if k < more {
        lemma_within_more(g, start, x, k, (more - 1) as nat);
        lemma_within_step(g, start, x, (more - 1) as nat);
    }
}

proof fn lemma_within_step(g: Graph, start: usize, x: usize, k: nat)
    requires
        within_steps(g, start, x, k),
    ensures
        within_steps(g, start, x, k + 1),
    decreases k,
{
    if x != start {
        let (y, j) = choose|y: usize, j: int|
            #![trigger g.nodes_lookup@[y].edges@[j]]
            within_steps(g, start, y, (k - 1) as nat) && g.nodes_lookup@.contains_key(y) && 0 <= j
                < g.nodes_lookup@[y].edges@.len() && g.nodes_lookup@[y].edges@[j].destination == x;
        lemma_within_step(g, start, y, (k - 1) as nat);
        assert(within_steps(g, start, y, k));
    }
}

pub(crate) proof fn lemma_frontier_after_take(
    trail: Seq<Waypoint>,
    old_q: Seq<usize>,
    new_q: Seq<usize>,
    c: usize,
    d: Discipline,
)
    requires
        old_q.len() > 0,
        match d {
            Discipline::Stack => c == old_q.last() && new_q == old_q.drop_last(),
            Discipline::Queue => c == old_q[0] && new_q == old_q.subrange(1, old_q.len() as int),
        },
    ensures
        old_q.contains(c),
        forall|m: int| 0 <= m < new_q.len() ==> old_q.contains(#[trigger] new_q[m]),
        forall|x: usize|
            #[trigger] in_frontier(trail, old_q, x) ==> trail[c as int].node_id == x
                || in_frontier(trail, new_q, x),
        forall|x: usize| #[trigger] in_frontier(trail, new_q, x) ==> in_frontier(trail, old_q, x),
{
    match d {
        Discipline::Stack => {
            assert(old_q[old_q.len() - 1] == c);
            assert forall|m: int| 0 <= m < new_q.len() implies old_q.contains(#[trigger] new_q[m]) by {
                assert(old_q[m] == new_q[m]);
            }
            assert forall|x: usize| #[trigger] in_frontier(trail, old_q, x) implies trail[c as int].node_id == x
                || in_frontier(trail, new_q, x) by {
                let m = choose|m: int| 0 <= m < old_q.len() && (#[trigger] trail[old_q[m] as int]).node_id == x;
                if m < old_q.len() - 1 {
                    assert(trail[new_q[m] as int].node_id == x);
                }
            }
            assert forall|x: usize| #[trigger] in_frontier(trail, new_q, x) implies in_frontier(trail, old_q, x) by {
                let m = choose|m: int| 0 <= m < new_q.len() && (#[trigger] trail[new_q[m] as int]).node_id == x;
                assert(trail[old_q[m] as int].node_id == x);
            }
        },
        Discipline::Queue => {
            assert(old_q[0] == c);
            assert forall|m: int| 0 <= m < new_q.len() implies old_q.contains(#[trigger] new_q[m]) by {
                assert(old_q[m + 1] == new_q[m]);
            }
            assert forall|x: usize| #[trigger] in_frontier(trail, old_q, x) implies trail[c as int].node_id == x
                || in_frontier(trail, new_q, x) by {
                let m = choose|m: int| 0 <= m < old_q.len() && (#[trigger] trail[old_q[m] as int]).node_id == x;
                if m > 0 {
                    assert(trail[new_q[m - 1] as int].node_id == x);
                }
            }
            assert forall|x: usize| #[trigger] in_frontier(trail, new_q, x) implies in_frontier(trail, old_q, x) by {
                let m = choose|m: int| 0 <= m < new_q.len() && (#[trigger] trail[new_q[m] as int]).node_id == x;
                assert(trail[old_q[m + 1] as int].node_id == x);
            }
        },
    }
}

proof fn lemma_stale_front(trail: Seq<Waypoint>, q: Seq<usize>, visited: Set<usize>)
    requires
        q.len() > 0,
    ensures
        stale(trail, q, visited) == stale(trail, q.subrange(1, q.len() as int), visited) + if visited.contains(
            trail[q[0] as int].node_id,
        ) {
            1nat
        } else {
            0nat
        },
    decreases q.len(),
{
    let rest = q.subrange(1, q.len() as int);
    if q.len() > 1 {
        lemma_stale_front(trail, q.drop_last(), visited);
        assert(q.drop_last().subrange(1, q.len() - 1) =~= rest.drop_last());
        assert(rest.last() == q.last());
        assert(q.drop_last()[0] == q[0]);
        assert(stale(trail, rest, visited) == stale(trail, rest.drop_last(), visited) + if visited.contains(
            trail[rest.last() as int].node_id,
        ) {
            1nat
        } else {
            0nat
        });
        assert(stale(trail, q, visited) == stale(trail, q.drop_last(), visited) + if visited.contains(
            trail[q.last() as int].node_id,
        ) {
            1nat
        } else {
            0nat
        });
    } else {
        assert(q.drop_last().len() == 0);
        assert(rest.len() == 0);
        assert(q.last() == q[0]);
        assert(stale(trail, q.drop_last(), visited) == 0);
        assert(stale(trail, rest, visited) == 0);
    }
}

pub(crate) proof fn lemma_stale_after_take(
    trail: Seq<Waypoint>,
    old_q: Seq<usize>,
    new_q: Seq<usize>,
    c: usize,
    visited: Set<usize>,
    d: Discipline,
)
    requires
        old_q.len() > 0,
        match d {
            Discipline::Stack => c == old_q.last() && new_q == old_q.drop_last(),
            Discipline::Queue => c == old_q[0] && new_q == old_q.subrange(1, old_q.len() as int),
        },
    ensures
        stale(trail, old_q, visited) == stale(trail, new_q, visited) + if visited.contains(
            trail[c as int].node_id,
        ) {
            1nat
        } else {
            0nat
        },
{
    match d {
        Discipline::Stack => {},
        Discipline::Queue => {
            lemma_stale_front(trail, old_q, visited);
        },
    }
}

pub(crate) proof fn lemma_stale_extend(
    old_trail: Seq<Waypoint>,
    new_trail: Seq<Waypoint>,
    q: Seq<usize>,
    visited: Set<usize>,
)
    requires
        extends(new_trail, old_trail),
        forall|m: int| 0 <= m < q.len() ==> (#[trigger] q[m]) < old_trail.len(),
    ensures
        stale(new_trail, q, visited) == stale(old_trail, q, visited),
    decreases q.len(),
{
    if q.len() > 0 {
        assert forall|m: int| 0 <= m < q.drop_last().len() implies (#[trigger] q.drop_last()[m])
            < old_trail.len() by {
            assert(q.drop_last()[m] == q[m]);
        }
        lemma_stale_extend(old_trail, new_trail, q.drop_last(), visited);
        assert(q[q.len() - 1] < old_trail.len());
        assert(new_trail[q.last() as int] == old_trail[q.last() as int]);
    }
}

pub(crate) proof fn lemma_extends_trans(a: Seq<Waypoint>, b: Seq<Waypoint>, c: Seq<Waypoint>)
    requires
        extends(a, b),
        extends(b, c),
    ensures
        extends(a, c),
{
    assert forall|i: int| 0 <= i < c.len() implies #[trigger] a[i] == c[i] by {
        assert(b[i] == c[i]);
    }
}

proof fn lemma_legs_back_push(t: Seq<Waypoint>, x: Waypoint, i: int)
    requires
        0 <= i < t.len(),
    ensures
        legs_back(t.push(x), i) == legs_back(t, i),
    decreases i,
{
    assert(t.push(x)[i] == t[i]);
    match t[i].previous {
        Some(p) => {
            if p < i {
                lemma_legs_back_push(t, x, p as int);
            }
        },
        None => {},
    }
}

pub(crate) proof fn lemma_extend_trail(
    edges: Seq<Edge>,
    old_trail: Seq<Waypoint>,
    new_trail: Seq<Waypoint>,
    c: usize,
    edge: Edge,
    start: usize,
)
    requires
        c < old_trail.len(),
        new_trail == old_trail.push(
            Waypoint { leg: Some(edge), previous: Some(c), node_id: edge.destination },
        ),
        trail_wf(old_trail),
        forall|i: int| 0 <= i < old_trail.len() ==> reached(edges, old_trail, i, start),
        old_trail[c as int].node_id == edge.source,
        edges.contains(edge),
    ensures
        trail_wf(new_trail),
        forall|i: int| 0 <= i < new_trail.len() ==> reached(edges, new_trail, i, start),
        extends(new_trail, old_trail),
        forall|i: int|
            0 <= i < old_trail.len() ==> #[trigger] legs_back(new_trail, i) == legs_back(
                old_trail,
                i,
            ),
        legs_back(new_trail, old_trail.len() as int) == seq![edge] + legs_back(
            old_trail,
            c as int,
        ),
{
    let w = Waypoint { leg: Some(edge), previous: Some(c), node_id: edge.destination };
    assert forall|i: int| 0 <= i < old_trail.len() implies #[trigger] legs_back(new_trail, i)
        == legs_back(old_trail, i) by {
        lemma_legs_back_push(old_trail, w, i);
    }
    lemma_legs_back_push(old_trail, w, c as int);
    assert(new_trail[old_trail.len() as int] == w);
    assert(legs_back(new_trail, old_trail.len() as int) =~= seq![edge] + legs_back(
        old_trail,
        c as int,
    ));
    assert forall|i: int| 0 <= i < new_trail.len() implies reached(edges, new_trail, i, start) by {
        if i < old_trail.len() {
            lemma_legs_back_push(old_trail, w, i);
            assert(new_trail[i] == old_trail[i]);
            assert(reached(edges, old_trail, i, start));
            assert(legs_back(new_trail, i) == legs_back(old_trail, i));
        } else {
            lemma_legs_back_push(old_trail, w, c as int);
            assert(new_trail[i] == w);
            let l = legs_back(old_trail, c as int);
            let nl = legs_back(new_trail, i);
            assert(nl =~= seq![edge] + l);
            assert(reached(edges, old_trail, c as int, start));
            if l.len() > 0 {
                assert(nl[1] == l[0]);
                assert(nl[nl.len() - 1] == l[l.len() - 1]);
            }
            assert forall|k: int| 0 <= k < nl.len() - 1 implies (#[trigger] nl[k]).source == nl[k
                + 1].destination by {
                if k > 0 {
                    assert(nl[k] == l[k - 1]);
                    assert(nl[k + 1] == l[k]);
                } else {
                    assert(nl[1] == l[0]);
                }
            }
            assert forall|k: int| 0 <= k < nl.len() implies edges.contains(#[trigger] nl[k]) by {
                if k > 0 {
                    assert(nl[k] == l[k - 1]);
                }
            }
            if l.len() == 0 {
                assert(old_trail[c as int].node_id == start);
                assert(nl.last() == edge);
            } else {
                assert(walk_back_from(edges, l, start, old_trail[c as int].node_id));
            }
            assert(nl.len() > 0);
            assert(nl[0].destination == new_trail[i].node_id);
            assert(nl.last().source == start);
            assert(walk_back_from(edges, nl, start, new_trail[i].node_id));
        }
    }
}

pub(crate) proof fn lemma_frontier_after_push(
    old_trail: Seq<Waypoint>,
    new_trail: Seq<Waypoint>,
    old_q: Seq<usize>,
    new_q: Seq<usize>,
    w: usize,
)
    requires
        extends(new_trail, old_trail),
        new_trail.len() == old_trail.len() + 1,
        w == new_trail.len() - 1,
        new_q == old_q.push(w),
        forall|m: int| 0 <= m < old_q.len() ==> (#[trigger] old_q[m]) < old_trail.len(),
    ensures
        forall|x: usize| #[trigger] in_frontier(old_trail, old_q, x) ==> in_frontier(new_trail, new_q, x),
        forall|x: usize|
            #[trigger] in_frontier(new_trail, new_q, x) ==> in_frontier(old_trail, old_q, x) || x
                == new_trail.last().node_id,
{
    assert forall|x: usize| #[trigger] in_frontier(old_trail, old_q, x) implies in_frontier(new_trail, new_q, x) by {
        let m = choose|m: int| 0 <= m < old_q.len() && (#[trigger] old_trail[old_q[m] as int]).node_id == x;
        assert(old_q[m] < old_trail.len());
        assert(new_q[m] == old_q[m]);
        assert(new_trail[new_q[m] as int] == old_trail[old_q[m] as int]);
    }
    assert forall|x: usize| #[trigger] in_frontier(new_trail, new_q, x) implies in_frontier(old_trail, old_q, x) || x
        == new_trail.last().node_id by {
        let m = choose|m: int| 0 <= m < new_q.len() && (#[trigger] new_trail[new_q[m] as int]).node_id == x;
        if m < old_q.len() {
            assert(new_q[m] == old_q[m]);
            assert(old_q[m] < old_trail.len());
            assert(old_trail[old_q[m] as int].node_id == x);
        } else {
            assert(new_q[m] == new_trail.len() - 1);
        }
    }
}

/// A walk read backwards makes its end reachable from its start.
pub proof fn lemma_walk_back_reachable(edges: Seq<Edge>, s: Seq<Edge>, from: usize, to: usize)
    requires
        walk_back_from(edges, s, from, to),
    ensures
        reachable(edges, from, to),
        is_walk(edges, s.reverse(), from, to),
{
    let f = s.reverse();
    assert forall|i: int| 0 <= i < f.len() - 1 implies (#[trigger] f[i]).destination == f[i
        + 1].source by {
        assert(f[i] == s[s.len() - 1 - i]);
        assert(f[i + 1] == s[s.len() - 2 - i]);
        assert(s[s.len() - 2 - i].source == s[s.len() - 2 - i + 1].destination);
    }
    assert forall|i: int| 0 <= i < f.len() implies edges.contains(#[trigger] f[i]) by {
        assert(f[i] == s[s.len() - 1 - i]);
    }
    assert(is_walk(edges, f, from, to));
}

} // verus!
