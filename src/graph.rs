use std::collections::HashMap;
use vstd::prelude::*;

use crate::grid::LookupError;
use crate::node::{Node, Position};
use crate::union_find::{lemma_roots_len, merged_roots, UnionFind};

verus! {

broadcast use vstd::std_specs::hash::group_hash_axioms;

/// A directed, weighted edge; two edges are equal when their indices are.
#[derive(Clone, Copy, Debug)]
pub struct Edge {
    pub index: usize,
    pub source: usize,
    pub destination: usize,
    pub weight: u64,
}

impl Edge {
    pub fn from(index: usize, source: usize, destination: usize, weight: u64) -> (r: Edge)
        ensures
            r == (Edge { index, source, destination, weight }),
    {
        Edge { index, source, destination, weight }
    }
}

impl PartialEq for Edge {
    fn eq(&self, other: &Edge) -> (r: bool)
        ensures
            r == (self.index == other.index),
    {
        self.index == other.index
    }
}

impl vstd::std_specs::cmp::PartialEqSpecImpl for Edge {
    open spec fn obeys_eq_spec() -> bool {
        true
    }

    open spec fn eq_spec(&self, other: &Edge) -> bool {
        self.index == other.index
    }
}

impl Eq for Edge {
}

/// Edge index to edge; of two edges with one index the later one stays.
pub open spec fn edge_map(s: Seq<Edge>) -> Map<usize, Edge>
    decreases s.len(),
{
    if s.len() == 0 {
        Map::empty()
    } else {
        edge_map(s.drop_last()).insert(s.last().index, s.last())
    }
}

/// Every node id that is the source or the destination of an edge.
pub open spec fn endpoints(s: Seq<Edge>) -> Set<usize>
    decreases s.len(),
{
    if s.len() == 0 {
        Set::empty()
    } else {
        endpoints(s.drop_last()).insert(s.last().source).insert(s.last().destination)
    }
}

/// The edges leaving `v`, in their order in `s`.
pub open spec fn out_edges(s: Seq<Edge>, v: usize) -> Seq<Edge>
    decreases s.len(),
{
    if s.len() == 0 {
        Seq::empty()
    } else if s.last().source == v {
        out_edges(s.drop_last(), v).push(s.last())
    } else {
        out_edges(s.drop_last(), v)
    }
}

/// The sum of the weights.
pub open spec fn total_weight(s: Seq<Edge>) -> int
    decreases s.len(),
{
    if s.len() == 0 {
        0
    } else {
        total_weight(s.drop_last()) + s.last().weight
    }
}

/// `t` with `e` put after every edge that is not heavier, walking from the back.
pub open spec fn insert_by_weight(t: Seq<Edge>, e: Edge) -> Seq<Edge>
    decreases t.len(),
{
    if t.len() == 0 {
        seq![e]
    } else if t.last().weight <= e.weight {
        t.push(e)
    } else {
        insert_by_weight(t.drop_last(), e).push(t.last())
    }
}

/// `s` sorted by ascending weight; edges of equal weight keep their order.
pub open spec fn sort_by_weight(s: Seq<Edge>) -> Seq<Edge>
    decreases s.len(),
{
    if s.len() == 0 {
        s
    } else {
        insert_by_weight(sort_by_weight(s.drop_last()), s.last())
    }
}

/// Node labels after joining the two ends of `a` and `b`: the class of `a` takes the label of `b`.
pub open spec fn join(label: spec_fn(int) -> int, a: int, b: int) -> spec_fn(int) -> int {
    |i: int| if label(i) == label(a) { label(b) } else { label(i) }
}

/// Node labels after joining the ends of each edge of `k` in turn; two nodes share a label
/// exactly when the edges of `k` connect them.
pub open spec fn labels_after(k: Seq<Edge>) -> spec_fn(int) -> int
    decreases k.len(),
{
    if k.len() == 0 {
        |i: int| i
    } else {
        join(labels_after(k.drop_last()), k.last().source as int, k.last().destination as int)
    }
}

/// Kruskal's choice over `s` in order: an edge is kept when the edges kept before it do not
/// already connect its ends.
pub open spec fn kruskal(s: Seq<Edge>) -> Seq<Edge>
    decreases s.len(),
{
    if s.len() == 0 {
        s
    } else {
        let k = kruskal(s.drop_last());
        let e = s.last();
        if labels_after(k)(e.source as int) != labels_after(k)(e.destination as int) {
            k.push(e)
        } else {
            k
        }
    }
}

/// The edges of the first `c` cells of row `r`: one per non-zero cell, with index
/// `r * row.len() + col`, directed from `r` to `col`.
pub open spec fn row_edges(row: Seq<u64>, r: int, c: int) -> Seq<Edge>
    decreases c,
{
    if c <= 0 {
        Seq::empty()
    } else {
        row_edges(row, r, c - 1) + if row[c - 1] != 0 {
            seq![
                Edge {
                    index: (r * row.len() + c - 1) as usize,
                    source: r as usize,
                    destination: (c - 1) as usize,
                    weight: row[c - 1],
                },
            ]
        } else {
            Seq::empty()
        }
    }
}

/// The edges of the first `k` rows of an adjacency matrix, row by row.
pub open spec fn matrix_edges(m: Seq<Vec<u64>>, k: int) -> Seq<Edge>
    decreases k,
{
    if k <= 0 {
        Seq::empty()
    } else {
        matrix_edges(m, k - 1) + row_edges(m[k - 1]@, k - 1, m[k - 1]@.len() as int)
    }
}

/// Nodes and edges, with lookups by id.
pub struct Graph {
    pub edges_lookup: HashMap<usize, Edge>,
    pub nodes_lookup: HashMap<usize, Node>,
    pub node_position_lookup: Option<HashMap<usize, Position>>,
    pub edges: Vec<Edge>,
    pub node_count: usize,
}

impl Graph {
    /// The lookups of this graph are those of the edge list `s`.
    pub open spec fn indexes(&self, s: Seq<Edge>) -> bool {
        &&& self.edges@ == s
        &&& self.edges_lookup@ == edge_map(s)
        &&& self.nodes_lookup@.dom() == endpoints(s)
        &&& forall|v: usize|
            #[trigger] self.nodes_lookup@.contains_key(v) ==> self.nodes_lookup@[v].id == v
                && self.nodes_lookup@[v].edges@ == out_edges(s, v)
        &&& self.node_count == self.nodes_lookup@.len()
    }

    /// The lookups agree with the edge list.
    pub open spec fn wf(&self) -> bool {
        self.indexes(self.edges@)
    }

    /// Node ids run from 0 to `node_count - 1`.
    pub open spec fn dense(&self) -> bool {
        forall|i: int|
            0 <= i < self.edges@.len() ==> (#[trigger] self.edges@[i]).source < self.node_count
                && self.edges@[i].destination < self.node_count
    }

    /// A graph of the given edges, without node positions.
    pub fn from(edges: Vec<Edge>) -> (r: Graph)
        ensures
            r.indexes(edges@),
            r.node_position_lookup.is_none(),
    {
        let mut nodes: HashMap<usize, Node> = HashMap::new();
        let mut edge_lookup: HashMap<usize, Edge> = HashMap::new();
        let mut i: usize = 0;
        while i < edges.len()
            invariant
                i <= edges@.len(),
                edge_lookup@ == edge_map(edges@.take(i as int)),
                nodes@.dom() == endpoints(edges@.take(i as int)),
                forall|v: usize|
                    #[trigger] nodes@.contains_key(v) ==> nodes@[v].id == v && nodes@[v].edges@
                        == out_edges(edges@.take(i as int), v),
            decreases edges@.len() - i,
        {
            let edge = edges[i];
            let ghost before = edges@.take(i as int);
            let ghost after = edges@.take(i + 1);
            assert(after.drop_last() =~= before);
            let ghost old_nodes = nodes@;
            match nodes.remove(&edge.source) {
                Some(node) => {
                    let mut node = node;
                    node.edges.push(edge);
                    nodes.insert(edge.source, node);
                },
                None => {
                    let mut list: Vec<Edge> = Vec::new();
                    list.push(edge);
                    nodes.insert(edge.source, Node { id: edge.source, edges: list });
                },
            }
            if !nodes.contains_key(&edge.destination) {
                nodes.insert(edge.destination, Node { id: edge.destination, edges: Vec::new() });
            }
            edge_lookup.insert(edge.index, edge);
            proof {
                assert(nodes@.dom() =~= endpoints(after));
                assert forall|v: usize| #[trigger] nodes@.contains_key(v) implies nodes@[v].id == v
                    && nodes@[v].edges@ == out_edges(after, v) by {
                    if v == edge.source {
                        if old_nodes.contains_key(v) {
                            assert(nodes@[v].edges@ == old_nodes[v].edges@.push(edge));
                        } else {
                            assert(out_edges(before, v) =~= Seq::empty()) by {
                                lemma_out_edges_absent(before, v);
                            }
                        }
                    } else if v == edge.destination && !old_nodes.contains_key(v) {
                        lemma_out_edges_absent(before, v);
                    }
                }
            }
            i = i + 1;
        }
        assert(edges@.take(edges@.len() as int) =~= edges@);
        let node_count = nodes.len();
        Graph {
            nodes_lookup: nodes,
            edges_lookup: edge_lookup,
            node_position_lookup: None,
            edges,
            node_count,
        }
    }

    /// Hands the graph the positions of its nodes.
    pub fn offer_positions(&mut self, node_positions: HashMap<usize, Position>)
        ensures
            final(self).node_position_lookup == Some(node_positions),
            final(self).edges == old(self).edges,
            final(self).edges_lookup == old(self).edges_lookup,
            final(self).nodes_lookup == old(self).nodes_lookup,
            final(self).node_count == old(self).node_count,
    {
        self.node_position_lookup = Some(node_positions);
    }

    /// A graph with an edge `row -> col` for every non-zero cell of the matrix.
    pub fn from_adjacency_matrix(matrix: &Vec<Vec<u64>>) -> (r: Graph)
        requires
            forall|i: int|
                0 <= i < matrix@.len() ==> matrix@.len() * (#[trigger] matrix@[i])@.len()
                    <= usize::MAX,
        ensures
            r.indexes(matrix_edges(matrix@, matrix@.len() as int)),
            r.node_position_lookup.is_none(),
    {
        let mut vec: Vec<Edge> = Vec::new();
        let mut row: usize = 0;
        while row < matrix.len()
            invariant
                row <= matrix@.len(),
                vec@ == matrix_edges(matrix@, row as int),
                forall|i: int|
                    0 <= i < matrix@.len() ==> matrix@.len() * (#[trigger] matrix@[i])@.len()
                        <= usize::MAX,
            decreases matrix@.len() - row,
        {
            let array = &matrix[row];
            let ghost start = vec@;
            let mut col: usize = 0;
            while col < array.len()
                invariant
                    row < matrix@.len(),
                    *array == matrix@[row as int],
                    matrix@.len() * array@.len() <= usize::MAX,
                    col <= array@.len(),
                    vec@ == start + row_edges(array@, row as int, col as int),
                decreases array@.len() - col,
            {
                proof {
                    assert(row * array@.len() + col < matrix@.len() * array@.len()) by (nonlinear_arith)
                        requires
                            row < matrix@.len(),
                            col < array@.len(),
                    ;
                }
                let weight = array[col];
                if weight != 0 {
                    vec.push(Edge::from(row * array.len() + col, row, col, weight));
                }
                assert(vec@ =~= start + row_edges(array@, row as int, col + 1));
                col = col + 1;
            }
            row = row + 1;
        }
        Graph::from(vec)
    }

    /// The edges sorted by ascending weight; edges of equal weight keep their order.
    pub fn sorted_by_weight_asc(&self) -> (r: Vec<Edge>)
        ensures
            r@ == sort_by_weight(self.edges@),
    {
        let mut sorted_edges: Vec<Edge> = Vec::new();
        let mut i: usize = 0;
        while i < self.edges.len()
            invariant
                i <= self.edges@.len(),
                sorted_edges@ == sort_by_weight(self.edges@.take(i as int)),
            decreases self.edges@.len() - i,
        {
            assert(self.edges@.take(i + 1).drop_last() =~= self.edges@.take(i as int));
            insert_sorted(&mut sorted_edges, self.edges[i]);
            i = i + 1;
        }
        assert(self.edges@.take(self.edges@.len() as int) =~= self.edges@);
        sorted_edges
    }

    /// Fails with `ConfigurationError` when no positions were offered.
    pub fn verify_positions(&self) -> (r: Result<(), LookupError>)
        ensures
            r == if self.node_position_lookup.is_some() {
                Ok::<(), LookupError>(())
            } else {
                Err(LookupError::ConfigurationError)
            },
    {
        match &self.node_position_lookup {
            None => Err(LookupError::ConfigurationError),
            Some(_) => Ok(()),
        }
    }

    pub fn position_is_set(&self) -> (r: bool)
        ensures
            r == self.node_position_lookup.is_some(),
    {
        self.node_position_lookup.is_some()
    }

    /// The position of a node: `ConfigurationError` without positions, `MissingPosition` when
    /// the positions lack this node.
    pub fn get_position(&self, node_id: &usize) -> (r: Result<Position, LookupError>)
        ensures
            r == match self.node_position_lookup {
                None => Err(LookupError::ConfigurationError),
                Some(m) => if m@.contains_key(*node_id) {
                    Ok(m@[*node_id])
                } else {
                    Err(LookupError::MissingPosition(*node_id))
                },
            },
    {
        match &self.node_position_lookup {
            None => Err(LookupError::ConfigurationError),
            Some(positions) => match positions.get(node_id) {
                None => Err(LookupError::MissingPosition(*node_id)),
                Some(position) => Ok(*position),
            },
        }
    }
}

/// The union-find sets over `0..n` are the classes of `label`.
pub open spec fn same_classes(uf: UnionFind, label: spec_fn(int) -> int, n: int) -> bool {
    forall|a: int, b: int|
        0 <= a < n && 0 <= b < n ==> (uf.root(a) == uf.root(b) <==> #[trigger] label(a)
            == #[trigger] label(b))
}

/// Kruskal's algorithm: a minimum spanning forest, as a new graph.
pub fn minimum_spanning(graph: Graph) -> (r: Graph)
    requires
        graph.dense(),
    ensures
        r.indexes(kruskal(sort_by_weight(graph.edges@))),
        r.node_position_lookup.is_none(),
{
    let edges = graph.sorted_by_weight_asc();
    let n = graph.node_count;
    proof {
        lemma_sort_keeps_edges(graph.edges@);
    }
    let mut union_find = UnionFind::from(n);
    let mut min_edges: Vec<Edge> = Vec::new();
    let mut i: usize = 0;
    while i < edges.len()
        invariant
            i <= edges@.len(),
            union_find.wf(),
            union_find.len() == n,
            forall|k: int|
                0 <= k < edges@.len() ==> (#[trigger] edges@[k]).source < n
                    && edges@[k].destination < n,
            min_edges@ == kruskal(edges@.take(i as int)),
            same_classes(union_find, labels_after(min_edges@), n as int),
        decreases edges@.len() - i,
    {
        let edge = edges[i];
        assert(edges@.take(i + 1).drop_last() =~= edges@.take(i as int));
        let ghost label = labels_after(min_edges@);
        let ghost before = union_find;
        if !union_find.connected(edge.source, edge.destination) {
            union_find.unify(edge.source, edge.destination);
            proof {
                lemma_roots_len(before);
                lemma_roots_len(union_find);
                lemma_join_matches(
                    before,
                    union_find,
                    label,
                    edge.source as int,
                    edge.destination as int,
                    n as int,
                );
            }
            let ghost kept = min_edges@;
            min_edges.push(edge);
            assert(min_edges@.drop_last() =~= kept);
        }
        i = i + 1;
    }
    assert(edges@.take(edges@.len() as int) =~= edges@);
    Graph::from(min_edges)
}

proof fn lemma_join_matches(
    before: UnionFind,
    after: UnionFind,
    label: spec_fn(int) -> int,
    p: int,
    q: int,
    n: int,
)
    requires
        0 <= p < n,
        0 <= q < n,
        before.roots().len() == n,
        after.roots().len() == n,
        same_classes(before, label, n),
        before.root(p) != before.root(q),
        after.roots() == merged_roots(before.roots(), before.root(p), before.root(q))
            || after.roots() == merged_roots(before.roots(), before.root(q), before.root(p)),
    ensures
        same_classes(after, join(label, p, q), n),
{
    let joined = join(label, p, q);
    assert forall|a: int, b: int| 0 <= a < n && 0 <= b < n implies (after.root(a) == after.root(b)
        <==> #[trigger] joined(a) == #[trigger] joined(b)) by {
        assert(before.root(a) == before.root(p) <==> label(a) == label(p));
        assert(before.root(b) == before.root(p) <==> label(b) == label(p));
        assert(before.root(a) == before.root(q) <==> label(a) == label(q));
        assert(before.root(b) == before.root(q) <==> label(b) == label(q));
        assert(before.root(a) == before.root(b) <==> label(a) == label(b));
    }
}

/// Sorting keeps the length and brings in no edge that was not there.
proof fn lemma_sort_keeps_edges(s: Seq<Edge>)
    ensures
        sort_by_weight(s).len() == s.len(),
        forall|k: int|
            0 <= k < sort_by_weight(s).len() ==> s.contains(#[trigger] sort_by_weight(s)[k]),
    decreases s.len(),
{
    if s.len() > 0 {
        lemma_sort_keeps_edges(s.drop_last());
        lemma_insert_keeps_edges(sort_by_weight(s.drop_last()), s.last());
        assert forall|k: int| 0 <= k < sort_by_weight(s).len() implies s.contains(
            #[trigger] sort_by_weight(s)[k],
        ) by {
            let x = sort_by_weight(s)[k];
            if x != s.last() {
                let t = sort_by_weight(s.drop_last());
                let j = choose|j: int| 0 <= j < t.len() && t[j] == x;
                let m = choose|m: int| 0 <= m < s.drop_last().len() && s.drop_last()[m] == t[j];
                assert(s[m] == x);
            } else {
                assert(s[s.len() - 1] == x);
            }
        }
    }
}

proof fn lemma_insert_keeps_edges(t: Seq<Edge>, e: Edge)
    ensures
        insert_by_weight(t, e).len() == t.len() + 1,
        forall|k: int|
            0 <= k < insert_by_weight(t, e).len() ==> #[trigger] insert_by_weight(t, e)[k] == e
                || t.contains(insert_by_weight(t, e)[k]),
    decreases t.len(),
{
    if t.len() > 0 {
        lemma_insert_keeps_edges(t.drop_last(), e);
        if t.last().weight > e.weight {
            assert forall|k: int| 0 <= k < insert_by_weight(t, e).len() implies #[trigger] insert_by_weight(t, e)[k] == e
                || t.contains(insert_by_weight(t, e)[k]) by {
                let x = insert_by_weight(t, e)[k];
                if k < t.len() {
                    if x != e {
                        let j = choose|j: int| 0 <= j < t.drop_last().len() && t.drop_last()[j] == x;
                        assert(t[j] == x);
                    }
                } else {
                    assert(t[t.len() - 1] == x);
                }
            }
        } else {
            assert forall|k: int| 0 <= k < insert_by_weight(t, e).len() implies #[trigger] insert_by_weight(t, e)[k] == e
                || t.contains(insert_by_weight(t, e)[k]) by {
                if k < t.len() {
                    assert(t[k] == insert_by_weight(t, e)[k]);
                }
            }
        }
    }
}

/// The weights never decrease along `t`.
pub open spec fn by_weight(t: Seq<Edge>) -> bool {
    forall|i: int, j: int| 0 <= i < j < t.len() ==> (#[trigger] t[i]).weight <= (#[trigger] t[j]).weight
}

/// Building the spanning tree of a spanning tree keeps every edge, in the same order, so the
/// weight sum stays what it was.
pub proof fn lemma_spanning_tree_idempotent(s: Seq<Edge>)
    ensures
        kruskal(sort_by_weight(kruskal(sort_by_weight(s)))) == kruskal(sort_by_weight(s)),
        total_weight(kruskal(sort_by_weight(kruskal(sort_by_weight(s))))) == total_weight(
            kruskal(sort_by_weight(s)),
        ),
{
    let sorted = sort_by_weight(s);
    lemma_sort_sorted(s);
    lemma_kruskal_sorted(sorted);
    lemma_sort_of_sorted(kruskal(sorted));
    lemma_kruskal_twice(sorted);
}

/// Kruskal's choice over the edges it kept keeps them all.
pub proof fn lemma_kruskal_twice(t: Seq<Edge>)
    ensures
        kruskal(kruskal(t)) == kruskal(t),
    decreases t.len(),
{
    if t.len() > 0 {
        lemma_kruskal_twice(t.drop_last());
        let k = kruskal(t.drop_last());
        let e = t.last();
        if labels_after(k)(e.source as int) != labels_after(k)(e.destination as int) {
            assert(k.push(e).drop_last() =~= k);
        }
    }
}

proof fn lemma_kruskal_within(t: Seq<Edge>)
    ensures
        forall|i: int| 0 <= i < kruskal(t).len() ==> t.contains(#[trigger] kruskal(t)[i]),
    decreases t.len(),
{
    if t.len() > 0 {
        lemma_kruskal_within(t.drop_last());
        let k = kruskal(t.drop_last());
        assert forall|i: int| 0 <= i < kruskal(t).len() implies t.contains(#[trigger] kruskal(t)[i]) by {
            if i < k.len() {
                assert(kruskal(t)[i] == k[i]);
                let j = choose|j: int| 0 <= j < t.drop_last().len() && t.drop_last()[j] == k[i];
                assert(t[j] == k[i]);
            } else {
                assert(t[t.len() - 1] == kruskal(t)[i]);
            }
        }
    }
}

proof fn lemma_kruskal_sorted(t: Seq<Edge>)
    requires
        by_weight(t),
    ensures
        by_weight(kruskal(t)),
    decreases t.len(),
{
    if t.len() > 0 {
        assert(by_weight(t.drop_last())) by {
            assert forall|i: int, j: int| 0 <= i < j < t.drop_last().len() implies (
            #[trigger] t.drop_last()[i]).weight <= (#[trigger] t.drop_last()[j]).weight by {
                assert(t[i].weight <= t[j].weight);
            }
        }
        lemma_kruskal_sorted(t.drop_last());
        lemma_kruskal_within(t.drop_last());
        let k = kruskal(t.drop_last());
        let e = t.last();
        assert forall|i: int| 0 <= i < k.len() implies (#[trigger] k[i]).weight <= e.weight by {
            let j = choose|j: int| 0 <= j < t.drop_last().len() && t.drop_last()[j] == k[i];
            assert(t[j].weight <= t[t.len() - 1].weight);
        }
        if labels_after(k)(e.source as int) != labels_after(k)(e.destination as int) {
            let p = k.push(e);
            assert forall|i: int, j: int| 0 <= i < j < p.len() implies (#[trigger] p[i]).weight
                <= (#[trigger] p[j]).weight by {
                assert(p[i] == k[i]);
                if j < k.len() {
                    assert(p[j] == k[j]);
                }
            }
        }
    }
}

proof fn lemma_insert_sorted(t: Seq<Edge>, e: Edge)
    requires
        by_weight(t),
    ensures
        by_weight(insert_by_weight(t, e)),
    decreases t.len(),
{
    if t.len() > 0 && t.last().weight > e.weight {
        let u = t.drop_last();
        assert(by_weight(u)) by {
            assert forall|i: int, j: int| 0 <= i < j < u.len() implies (#[trigger] u[i]).weight
                <= (#[trigger] u[j]).weight by {
                assert(t[i].weight <= t[j].weight);
            }
        }
        lemma_insert_sorted(u, e);
        lemma_insert_keeps_edges(u, e);
        let v = insert_by_weight(u, e);
        let p = v.push(t.last());
        assert forall|i: int| 0 <= i < v.len() implies (#[trigger] v[i]).weight <= t.last().weight by {
            if v[i] != e {
                let j = choose|j: int| 0 <= j < u.len() && u[j] == v[i];
                assert(t[j].weight <= t[t.len() - 1].weight);
            }
        }
        assert forall|i: int, j: int| 0 <= i < j < p.len() implies (#[trigger] p[i]).weight
            <= (#[trigger] p[j]).weight by {
            assert(p[i] == v[i]);
            if j < v.len() {
                assert(p[j] == v[j]);
            }
        }
    } else if t.len() > 0 {
        let p = t.push(e);
        assert forall|i: int, j: int| 0 <= i < j < p.len() implies (#[trigger] p[i]).weight
            <= (#[trigger] p[j]).weight by {
            assert(p[i] == t[i]);
            if j < t.len() {
                assert(p[j] == t[j]);
            } else {
                assert(t[i].weight <= t[t.len() - 1].weight || i == t.len() - 1);
            }
        }
    }
}

proof fn lemma_sort_sorted(s: Seq<Edge>)
    ensures
        by_weight(sort_by_weight(s)),
    decreases s.len(),
{
    if s.len() > 0 {
        lemma_sort_sorted(s.drop_last());
        lemma_insert_sorted(sort_by_weight(s.drop_last()), s.last());
    }
}

/// Sorting edges that are already in order changes nothing.
proof fn lemma_sort_of_sorted(t: Seq<Edge>)
    requires
        by_weight(t),
    ensures
        sort_by_weight(t) == t,
    decreases t.len(),
{
    if t.len() > 0 {
        let u = t.drop_last();
        assert(by_weight(u)) by {
            assert forall|i: int, j: int| 0 <= i < j < u.len() implies (#[trigger] u[i]).weight
                <= (#[trigger] u[j]).weight by {
                assert(t[i].weight <= t[j].weight);
            }
        }
        lemma_sort_of_sorted(u);
        if u.len() > 0 {
            assert(t[u.len() - 1].weight <= t[t.len() - 1].weight);
            assert(u.push(t.last()) =~= t);
        } else {
            assert(seq![t.last()] =~= t);
        }
    }
}

/// Puts `e` into the sorted `t` after every edge that is not heavier.
fn insert_sorted(t: &mut Vec<Edge>, e: Edge)
    ensures
        final(t)@ == insert_by_weight(old(t)@, e),
{
    let ghost orig = t@;
    t.push(e);
    let mut j: usize = t.len() - 1;
    while j > 0 && t[j - 1].weight > e.weight
        invariant
            j <= orig.len(),
            t@ == orig.take(j as int).push(e) + orig.skip(j as int),
            forall|k: int| j <= k < orig.len() ==> (#[trigger] orig[k]).weight > e.weight,
        decreases j,
    {
        let moved = t[j - 1];
        t.set(j - 1, e);
        t.set(j, moved);
        assert(t@ =~= orig.take(j - 1).push(e) + orig.skip(j - 1));
        j = j - 1;
    }
    proof {
        lemma_insert_split(orig, e, j as int);
        if j > 0 {
            assert(orig.take(j as int).drop_last() =~= orig.take(j - 1));
        }
        assert(insert_by_weight(orig, e) =~= orig.take(j as int).push(e) + orig.skip(j as int));
    }
}

/// Inserting into `t` is inserting into its first `j` edges when the rest are heavier.
proof fn lemma_insert_split(t: Seq<Edge>, e: Edge, j: int)
    requires
        0 <= j <= t.len(),
        forall|k: int| j <= k < t.len() ==> (#[trigger] t[k]).weight > e.weight,
        j > 0 ==> t[j - 1].weight <= e.weight,
    ensures
        insert_by_weight(t, e) == t.take(j).push(e) + t.skip(j),
    decreases t.len() - j,
{
    if j == t.len() {
        if t.len() == 0 {
            assert(t.take(j).push(e) + t.skip(j) =~= seq![e]);
        } else {
            assert(t.take(j).push(e) + t.skip(j) =~= t.push(e));
        }
    } else {
        lemma_insert_split(t.drop_last(), e, j);
        assert(t.drop_last().take(j) =~= t.take(j));
        assert((t.take(j).push(e) + t.drop_last().skip(j)).push(t.last()) =~= t.take(j).push(e)
            + t.skip(j));
    }
}

/// Both ends of every edge are endpoints.
pub proof fn lemma_endpoints_contains(s: Seq<Edge>, k: int)
    requires
        0 <= k < s.len(),
    ensures
        endpoints(s).contains(s[k].source),
        endpoints(s).contains(s[k].destination),
    decreases s.len(),
{
    if k < s.len() - 1 {
        lemma_endpoints_contains(s.drop_last(), k);
    }
}

/// A node that no edge touches has no edge leaving it.
pub proof fn lemma_out_edges_absent(s: Seq<Edge>, v: usize)
    requires
        !endpoints(s).contains(v),
    ensures
        out_edges(s, v) == Seq::<Edge>::empty(),
    decreases s.len(),
{
    if s.len() > 0 {
        lemma_out_edges_absent(s.drop_last(), v);
    }
}

} // verus!
