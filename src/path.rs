use vstd::prelude::*;

use crate::graph::{lemma_endpoints_contains, out_edges, Edge, Graph};
use crate::grid::{Direction, Grid};
use crate::node::Node;
use crate::search::grid_graph::moves;

verus! {

/// A node reached during a search, the edge taken to reach it, and the position of the
/// waypoint it was reached from in the search's trail.
#[derive(Clone, Copy, Debug)]
pub struct Waypoint {
    pub leg: Option<Edge>,
    pub previous: Option<usize>,
    pub node_id: usize,
}

impl Waypoint {
    pub fn from(edge: Option<Edge>, node_id: usize, previous: Option<usize>) -> (r: Waypoint)
        ensures
            r == (Waypoint { leg: edge, previous, node_id }),
    {
        Waypoint { leg: edge, previous, node_id }
    }
}

/// A search strategy over graphs and grids.
pub trait PathFinding {
    /// What the strategy promises of the edges `path` it returns between `source` and
    /// `target`, over the edges it searched.
    spec fn finds(&self, edges: Seq<Edge>, source: usize, target: usize, path: Seq<Edge>) -> bool;

    /// The edges that the strategy finds between two nodes of the graph.
    fn graph(&self, source: &Node, target: &Node, graph: &Graph) -> (r: Graph)
        requires
            graph.wf(),
            graph.nodes_lookup@.contains_key(source.id),
            graph.nodes_lookup@.contains_key(target.id),
        ensures
            r.wf(),
            forall|k: int|
                0 <= k < r.edges@.len() ==> graph.edges@.contains(#[trigger] r.edges@[k]),
            self.finds(graph.edges@, source.id, target.id, r.edges@),
    ;

    /// The moves that the strategy finds between two cells of the grid.
    fn grid(
        &self,
        source: (usize, usize),
        target: (usize, usize),
        grid: &Grid,
        directions: &[Direction],
    ) -> (r: Graph)
        requires
            grid.wf(),
            grid.inside(source),
            grid.inside(target),
        ensures
            r.wf(),
            forall|k: int|
                0 <= k < r.edges@.len() ==> moves(*grid, directions@).contains(
                    #[trigger] r.edges@[k],
                ),
            self.finds(
                moves(*grid, directions@),
                grid.id_of(source) as usize,
                grid.id_of(target) as usize,
                r.edges@,
            ),
    ;
}

/// Runs the strategy between two node ids; an empty graph when either id is not a node.
pub fn in_graph<P: PathFinding>(source: usize, target: usize, graph: &Graph, path_finding: Box<
    P,
>) -> (r: Graph)
    requires
        graph.wf(),
    ensures
        r.wf(),
        forall|k: int| 0 <= k < r.edges@.len() ==> graph.edges@.contains(#[trigger] r.edges@[k]),
        !graph.nodes_lookup@.contains_key(source) || !graph.nodes_lookup@.contains_key(target)
            ==> r.edges@.len() == 0,
        graph.nodes_lookup@.contains_key(source) && graph.nodes_lookup@.contains_key(target)
            ==> path_finding.finds(graph.edges@, source, target, r.edges@),
{
    let source_node = graph.nodes_lookup.get(&source);
    let target_node = graph.nodes_lookup.get(&target);
    match (source_node, target_node) {
        (Some(s), Some(t)) => path_finding.graph(s, t, graph),
        _ => Graph::from(Vec::new()),
    }
}

/// Runs the strategy between two cells; an empty graph when either lies outside the grid.
pub fn in_grid<P: PathFinding>(
    source: (usize, usize),
    target: (usize, usize),
    grid: &Grid,
    directions: &[Direction],
    path_finding: Box<P>,
) -> (r: Graph)
    requires
        grid.wf(),
    ensures
        r.wf(),
        forall|k: int|
            0 <= k < r.edges@.len() ==> moves(*grid, directions@).contains(#[trigger] r.edges@[k]),
        !grid.inside(source) || !grid.inside(target) ==> r.edges@.len() == 0,
        grid.inside(source) && grid.inside(target) ==> path_finding.finds(
            moves(*grid, directions@),
            grid.id_of(source) as usize,
            grid.id_of(target) as usize,
            r.edges@,
        ),
{
    if grid.outside(source) || grid.outside(target) {
        return Graph::from(Vec::new());
    }
    path_finding.grid(source, target, grid, directions)
}

/// A walk found by a search: the legs from `target` back to `source`, no node twice; empty exactly when
/// `source` is `target` or no walk leads there.
pub open spec fn walk_found(edges: Seq<Edge>, path: Seq<Edge>, source: usize, target: usize) -> bool {
    &&& path.len() > 0 ==> walk_back_from(edges, path, source, target) && no_repeat(path, source)
    &&& path.len() == 0 <==> (source == target || !reachable(edges, source, target))
}

/// A walk found breadth-first: as `walk_found`, and no walk has fewer edges.
pub open spec fn shortest_found(edges: Seq<Edge>, path: Seq<Edge>, source: usize, target: usize) -> bool {
    &&& walk_found(edges, path, source, target)
    &&& path.len() > 0 ==> forall|w: Seq<Edge>|
        #[trigger] is_walk(edges, w, source, target) ==> path.len() <= w.len()
}

/// A walk found best-first: the edges from `source` to `target` in order, no node twice; empty exactly when
/// `source` is `target` or no walk leads there.
pub open spec fn forward_found(edges: Seq<Edge>, path: Seq<Edge>, source: usize, target: usize) -> bool {
    &&& path.len() > 0 ==> is_walk(edges, path, source, target) && no_repeat(path, source)
    &&& path.len() == 0 <==> (source == target || !reachable(edges, source, target))
}

/// What a two-sided search finds: something whenever a walk leads from `source` to a
/// different `target`; whatever it finds is where walks from both ends meet; and where
/// `source` has an edge to `target`, the first such edge alone.
pub open spec fn meeting_found(edges: Seq<Edge>, path: Seq<Edge>, source: usize, target: usize) -> bool {
    &&& source != target && reachable(edges, source, target) ==> path.len() > 0
    &&& path.len() > 0 ==> meets(edges, path, source, target) || meets(edges, path, target, source)
    &&& source != target ==> forall|k: int|
        first_edge_to(out_edges(edges, source), target, k) ==> path == seq![
            out_edges(edges, source)[k],
        ]
}

/// Every waypoint points back only to an earlier one.
pub open spec fn trail_wf(t: Seq<Waypoint>) -> bool {
    forall|i: int|
        0 <= i < t.len() ==> match (#[trigger] t[i]).previous {
            Some(p) => p < i,
            None => true,
        }
}

/// The legs met when walking back from waypoint `i` to the start of its chain, in that order.
pub open spec fn legs_back(t: Seq<Waypoint>, i: int) -> Seq<Edge>
    decreases i,
{
    if i < 0 || i >= t.len() {
        Seq::empty()
    } else {
        let head = match t[i].leg {
            Some(e) => seq![e],
            None => Seq::empty(),
        };
        match t[i].previous {
            Some(p) => if p < i {
                head + legs_back(t, p as int)
            } else {
                head
            },
            None => head,
        }
    }
}

/// `s` without the edges whose index came earlier in `s`.
pub open spec fn distinct_edges(s: Seq<Edge>) -> Seq<Edge>
    decreases s.len(),
{
    if s.len() == 0 {
        s
    } else {
        let d = distinct_edges(s.drop_last());
        if exists|k: int| 0 <= k < d.len() && (#[trigger] d[k]).index == s.last().index {
            d
        } else {
            d.push(s.last())
        }
    }
}

/// `s` read backwards is a walk of at least one edge of `edges` from `from` to `to`.
pub open spec fn walk_back_from(edges: Seq<Edge>, s: Seq<Edge>, from: usize, to: usize) -> bool {
    &&& s.len() > 0
    &&& s[0].destination == to
    &&& s.last().source == from
    &&& forall|i: int| 0 <= i < s.len() - 1 ==> (#[trigger] s[i]).source == s[i + 1].destination
    &&& forall|i: int| 0 <= i < s.len() ==> edges.contains(#[trigger] s[i])
}

/// `s` is a walk of at least one edge of `edges` from `from` to `to`.
pub open spec fn is_walk(edges: Seq<Edge>, s: Seq<Edge>, from: usize, to: usize) -> bool {
    &&& s.len() > 0
    &&& s[0].source == from
    &&& s.last().destination == to
    &&& forall|i: int| 0 <= i < s.len() - 1 ==> (#[trigger] s[i]).destination == s[i + 1].source
    &&& forall|i: int| 0 <= i < s.len() ==> edges.contains(#[trigger] s[i])
}

/// `path` holds, each edge once, the legs of a walk back from some node `m` to `a`, followed by
/// the legs of a walk back from `m` to `b`, or by none where `m` is `b`.
pub open spec fn meets(edges: Seq<Edge>, path: Seq<Edge>, a: usize, b: usize) -> bool {
    exists|x: Seq<Edge>, y: Seq<Edge>, m: usize|
        #![trigger distinct_edges(x + y), walk_back_from(edges, x, a, m)]
        path == distinct_edges(x + y) && walk_back_from(edges, x, a, m) && ((y.len() == 0 && m
            == b) || walk_back_from(edges, y, b, m))
}

/// No node repeats along the walk `s` from or to `start`: the ends of its edges differ from
/// one another and from `start`.
pub open spec fn no_repeat(s: Seq<Edge>, start: usize) -> bool {
    &&& forall|i: int, j: int|
        0 <= i < j < s.len() ==> (#[trigger] s[i]).destination != (#[trigger] s[j]).destination
    &&& forall|i: int| 0 <= i < s.len() ==> (#[trigger] s[i]).destination != start
}

/// `k` is the first position in `out` of an edge to `target`.
pub open spec fn first_edge_to(out: Seq<Edge>, target: usize, k: int) -> bool {
    &&& 0 <= k < out.len()
    &&& out[k].destination == target
    &&& forall|m: int| 0 <= m < k ==> (#[trigger] out[m]).destination != target
}

/// Some walk of at least one edge leads from `from` to `to`.
pub open spec fn reachable(edges: Seq<Edge>, from: usize, to: usize) -> bool {
    exists|s: Seq<Edge>| is_walk(edges, s, from, to)
}

/// The legs from waypoint `at` back to the start of its chain, in that order; repeated
/// edges are kept.
pub fn walk_back(trail: &Vec<Waypoint>, at: usize) -> (r: Vec<Edge>)
    requires
        trail_wf(trail@),
        at < trail@.len(),
    ensures
        r@ == legs_back(trail@, at as int),
{
    let mut edges: Vec<Edge> = Vec::new();
    let mut current: Option<usize> = Some(at);
    while current.is_some()
        invariant
            trail_wf(trail@),
            match current {
                Some(c) => c < trail@.len() && legs_back(trail@, at as int) == edges@
                    + legs_back(trail@, c as int),
                None => legs_back(trail@, at as int) == edges@,
            },
        decreases
            match current {
                Some(c) => c + 1,
                None => 0,
            },
    {
        let c = current.unwrap();
        let waypoint = trail[c];
        let ghost before = edges@;
        match waypoint.leg {
            Some(e) => edges.push(e),
            None => {},
        }
        current = waypoint.previous;
        proof {
            match waypoint.leg {
                Some(e) => {
                    assert(before.push(e) =~= before + seq![e]);
                },
                None => {
                    assert(edges@ =~= before + Seq::<Edge>::empty());
                },
            }
            match current {
                Some(p) => {
                    assert(edges@ + legs_back(trail@, p as int) =~= before + legs_back(
                        trail@,
                        c as int,
                    ));
                },
                None => {},
            }
        }
    }
    edges
}

/// The legs from waypoint `at` back to the start of its chain, each edge once.
pub fn walk_back_set(trail: &Vec<Waypoint>, at: usize) -> (r: Vec<Edge>)
    requires
        trail_wf(trail@),
        at < trail@.len(),
    ensures
        r@ == distinct_edges(legs_back(trail@, at as int)),
{
    let legs = walk_back(trail, at);
    distinct(&legs)
}

/// `s` without the edges whose index came earlier.
pub fn distinct(s: &Vec<Edge>) -> (r: Vec<Edge>)
    ensures
        r@ == distinct_edges(s@),
{
    let mut out: Vec<Edge> = Vec::new();
    let mut i: usize = 0;
    while i < s.len()
        invariant
            i <= s@.len(),
            out@ == distinct_edges(s@.take(i as int)),
        decreases s@.len() - i,
    {
        let e = s[i];
        assert(s@.take(i + 1).drop_last() =~= s@.take(i as int));
        let mut found = false;
        let mut k: usize = 0;
        while k < out.len()
            invariant
                k <= out@.len(),
                found == exists|m: int| 0 <= m < k && (#[trigger] out@[m]).index == e.index,
            decreases out@.len() - k,
        {
            if out[k].index == e.index {
                found = true;
            }
            k = k + 1;
        }
        if !found {
            out.push(e);
        }
        i = i + 1;
    }
    assert(s@.take(s@.len() as int) =~= s@);
    out
}

/// Both ends of a walk are ends of edges of the list.
pub proof fn lemma_reachable_endpoints(edges: Seq<Edge>, from: usize, to: usize)
    requires
        reachable(edges, from, to),
    ensures
        crate::graph::endpoints(edges).contains(from),
        crate::graph::endpoints(edges).contains(to),
{
    let s = choose|s: Seq<Edge>| is_walk(edges, s, from, to);
    assert(edges.contains(s[0]));
    assert(edges.contains(s[s.len() - 1]));
    let i = choose|i: int| 0 <= i < edges.len() && edges[i] == s[0];
    let j = choose|j: int| 0 <= j < edges.len() && edges[j] == s[s.len() - 1];
    lemma_endpoints_contains(edges, i);
    lemma_endpoints_contains(edges, j);
}

/// Dropping repeated edges brings in no new edge.
pub proof fn lemma_distinct_within(s: Seq<Edge>)
    ensures
        forall|k: int| 0 <= k < distinct_edges(s).len() ==> s.contains(#[trigger] distinct_edges(s)[k]),
    decreases s.len(),
{
    if s.len() > 0 {
        lemma_distinct_within(s.drop_last());
        let d = distinct_edges(s.drop_last());
        assert forall|k: int| 0 <= k < distinct_edges(s).len() implies s.contains(
            #[trigger] distinct_edges(s)[k],
        ) by {
            if k < d.len() {
                assert(distinct_edges(s)[k] == d[k]);
                let j = choose|j: int| 0 <= j < s.drop_last().len() && s.drop_last()[j] == d[k];
                assert(s[j] == d[k]);
            } else {
                assert(s[s.len() - 1] == distinct_edges(s)[k]);
            }
        }
    }
}

/// Dropping repeated edges leaves at least one edge of a non-empty list.
pub proof fn lemma_distinct_nonempty(s: Seq<Edge>)
    requires
        s.len() > 0,
    ensures
        distinct_edges(s).len() > 0,
    decreases s.len(),
{
    if s.len() > 1 {
        lemma_distinct_nonempty(s.drop_last());
    }
}

/// An edge of the list leaves its source node.
pub proof fn lemma_edge_in_out_edges(s: Seq<Edge>, k: int)
    requires
        0 <= k < s.len(),
    ensures
        out_edges(s, s[k].source).contains(s[k]),
    decreases s.len(),
{
    if k < s.len() - 1 {
        lemma_edge_in_out_edges(s.drop_last(), k);
        let o = out_edges(s.drop_last(), s[k].source);
        let j = choose|j: int| 0 <= j < o.len() && o[j] == s[k];
        if s.last().source == s[k].source {
            assert(out_edges(s, s[k].source)[j] == s[k]);
        }
    } else {
        let o = out_edges(s.drop_last(), s[k].source);
        assert(out_edges(s, s[k].source)[o.len() as int] == s[k]);
    }
}

/// An edge leaving `v` is an edge of the list.
pub proof fn lemma_out_edges_in_list(s: Seq<Edge>, v: usize, k: int)
    requires
        0 <= k < out_edges(s, v).len(),
    ensures
        s.contains(out_edges(s, v)[k]),
        out_edges(s, v)[k].source == v,
    decreases s.len(),
{
    if s.len() > 0 {
        let o = out_edges(s.drop_last(), v);
        if k < o.len() {
            lemma_out_edges_in_list(s.drop_last(), v, k);
            let j = choose|j: int| 0 <= j < s.drop_last().len() && s.drop_last()[j] == o[k];
            assert(s[j] == o[k]);
        } else {
            assert(s[s.len() - 1] == out_edges(s, v)[k]);
        }
    }
}

/// The edges leaving a member of a closed set lead back into it.
pub open spec fn closed_under(g: Graph, closed: Set<usize>) -> bool {
    forall|v: usize, k: int|
        closed.contains(v) && g.nodes_lookup@.contains_key(v) && 0 <= k
            < g.nodes_lookup@[v].edges@.len() ==> closed.contains(
            (#[trigger] g.nodes_lookup@[v].edges@[k]).destination,
        )
}

/// No walk leaves a set of nodes that holds `from`, is closed under the edges leaving its
/// members, and lacks `to`.
pub proof fn lemma_closed_set_unreachable(g: Graph, closed: Set<usize>, from: usize, to: usize)
    requires
        g.wf(),
        closed.contains(from),
        !closed.contains(to),
        closed_under(g, closed),
    ensures
        !reachable(g.edges@, from, to),
{
    if reachable(g.edges@, from, to) {
        let s = choose|s: Seq<Edge>| is_walk(g.edges@, s, from, to);
        lemma_walk_stays(g, closed, s, from, to, s.len() - 1);
    }
}

proof fn lemma_walk_stays(g: Graph, closed: Set<usize>, s: Seq<Edge>, from: usize, to: usize, i: int)
    requires
        g.wf(),
        closed.contains(from),
        closed_under(g, closed),
        is_walk(g.edges@, s, from, to),
        0 <= i < s.len(),
    ensures
        closed.contains(s[i].destination),
    decreases i,
{
    if i > 0 {
        lemma_walk_stays(g, closed, s, from, to, i - 1);
        assert(s[i - 1].destination == s[i].source);
    }
    let e = s[i];
    assert(g.edges@.contains(e));
    let k = choose|k: int| 0 <= k < g.edges@.len() && g.edges@[k] == e;
    lemma_edge_in_out_edges(g.edges@, k);
    lemma_endpoints_contains(g.edges@, k);
    let o = g.nodes_lookup@[e.source].edges@;
    let j = choose|j: int| 0 <= j < o.len() && o[j] == e;
    assert(closed.contains(g.nodes_lookup@[e.source].edges@[j].destination));
}

} // verus!
