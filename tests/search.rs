use std::collections::HashMap;

use pathfinding_graph::graph::{Edge, Graph};
use pathfinding_graph::grid::{Direction, Grid};
use pathfinding_graph::path::{in_graph, in_grid, walk_back, walk_back_set, PathFinding, Waypoint};
use pathfinding_graph::search::dijkstra::Heuristic;
use pathfinding_graph::search::{
    AStar, BiBreadthFirstSearch, BreadthFirstSearch, DepthFirstSearch, Dijkstra, HierarchicalAStar,
};

fn calc_cost(edges: &Vec<Edge>) -> u64 {
    let mut total_cost: u64 = 0;
    for edge in edges {
        total_cost += edge.weight;
    }

    total_cost
}

fn in_sevenths(edges: &Vec<Edge>) -> f32 {
    calc_cost(edges) as f32 / 7.0
}

// weights in sevenths
fn undirected_graph() -> Graph {
    let edge1 = Edge::from(0, 1, 2, 0);
    let edge2 = Edge::from(1, 2, 1, 0);
    let edge3 = Edge::from(2, 2, 3, 1);
    let edge4 = Edge::from(3, 3, 2, 1);
    let edge5 = Edge::from(4, 1, 0, 2);
    let edge6 = Edge::from(5, 0, 1, 2);
    let edge7 = Edge::from(6, 3, 4, 2);
    let edge8 = Edge::from(7, 4, 3, 2);
    let edge9 = Edge::from(8, 1, 3, 3);
    let edge10 = Edge::from(9, 3, 1, 3);
    let edge11 = Edge::from(10, 0, 3, 6);
    let edge12 = Edge::from(11, 3, 0, 6);
    let edge13 = Edge::from(12, 0, 4, 7);
    let edge14 = Edge::from(13, 4, 0, 7);

    Graph::from(Vec::from([
        edge1, edge2, edge3, edge4, edge5, edge6, edge7, edge8, edge9, edge10, edge11, edge12,
        edge13, edge14,
    ]))
}

fn directed_graph() -> Graph {
    let edge1 = Edge::from(0, 4, 0, 7);
    let edge2 = Edge::from(1, 0, 2, 12);
    let edge3 = Edge::from(2, 0, 3, 60);
    let edge4 = Edge::from(3, 2, 1, 20);
    let edge5 = Edge::from(4, 2, 3, 32);
    let edge6 = Edge::from(5, 1, 0, 10);

    Graph::from(Vec::from([edge1, edge2, edge3, edge4, edge5, edge6]))
}

fn graphs_with_one_connection() -> Graph {
    Graph::from(Vec::from([
        Edge::from(0, 0, 4, 1),
        Edge::from(1, 1, 4, 2),
        Edge::from(2, 4, 6, 3),
        Edge::from(3, 3, 5, 4),
        Edge::from(4, 2, 5, 5),
        Edge::from(5, 5, 6, 6),
        Edge::from(6, 6, 7, 7),
        Edge::from(7, 11, 9, 8),
        Edge::from(8, 12, 9, 9),
        Edge::from(9, 9, 8, 10),
        Edge::from(10, 14, 10, 11),
        Edge::from(11, 13, 10, 12),
        Edge::from(12, 10, 8, 13),
        Edge::from(13, 8, 7, 14),
        Edge::from(14, 4, 0, 1),
        Edge::from(15, 4, 1, 2),
        Edge::from(16, 6, 4, 3),
        Edge::from(17, 5, 3, 4),
        Edge::from(18, 5, 2, 5),
        Edge::from(19, 6, 5, 6),
        Edge::from(20, 7, 6, 7),
        Edge::from(21, 9, 11, 8),
        Edge::from(22, 9, 12, 9),
        Edge::from(23, 8, 9, 10),
        Edge::from(24, 10, 14, 11),
        Edge::from(25, 10, 13, 12),
        Edge::from(26, 8, 10, 13),
        Edge::from(27, 7, 8, 14),
    ]))
}

fn a_star_edges() -> Vec<Edge> {
    Vec::from([
        Edge::from(0, 0, 1, 1),
        Edge::from(1, 0, 2, 1),
        Edge::from(2, 1, 3, 1),
        Edge::from(3, 2, 3, 2),
        Edge::from(4, 3, 4, 3),
    ])
}

struct Table(HashMap<(usize, usize), u64>);

impl Heuristic for Table {
    fn estimate(&self, candidate: usize, target: usize, _graph: &Graph) -> u64 {
        *self.0.get(&(candidate, target)).unwrap()
    }

    fn estimate_cell(&self, _candidate: (usize, usize), _target: (usize, usize)) -> u64 {
        0
    }
}

fn inconsistent() -> Table {
    Table(HashMap::from([((0, 4), 2), ((1, 4), 4), ((2, 4), 1), ((3, 4), 1), ((4, 4), 0)]))
}

fn consistent() -> Table {
    Table(HashMap::from([((0, 4), 2), ((1, 4), 1), ((2, 4), 1), ((3, 4), 1), ((4, 4), 0)]))
}

fn stubbed_path() -> Vec<Waypoint> {
    let mut trail = vec![Waypoint::from(Some(Edge::from(0, 0, 1, 1)), 0, None)];
    for i in 0..10 {
        let previous = trail.len() - 1;
        trail.push(Waypoint::from(Some(Edge::from(i, 0, 1, 1)), 0, Some(previous)));
    }
    trail
}

fn dijkstra_graph() -> Graph {
    Graph::from(Vec::from([
        Edge::from(0, 0, 1, 4),
        Edge::from(1, 0, 2, 2),
        Edge::from(2, 1, 2, 3),
        Edge::from(3, 1, 3, 2),
        Edge::from(4, 1, 4, 3),
        Edge::from(5, 2, 1, 1),
        Edge::from(6, 2, 3, 4),
        Edge::from(7, 2, 4, 5),
        Edge::from(8, 4, 3, 1),
    ]))
}

fn disjoint_graph() -> Graph {
    Graph::from(Vec::from([Edge::from(0, 0, 1, 4), Edge::from(1, 2, 3, 2)]))
}

#[test]
fn walk_back_with_only_one_waypoint_should_succeed() {
    let trail = vec![Waypoint::from(Some(Edge::from(0, 0, 1, 1)), 1, None)];

    assert_eq!(1, calc_cost(&walk_back_set(&trail, 0)));
}

#[test]
fn walk_back_without_leg_should_succeed() {
    let trail = vec![Waypoint::from(None, 1, None)];

    let edges = walk_back_set(&trail, 0);
    assert_eq!(0, edges.len());
}

#[test]
fn walk_back_with_path_should_succeed() {
    let trail = stubbed_path();
    let edges = walk_back_set(&trail, trail.len() - 1);

    assert_eq!(10, calc_cost(&edges));
    assert_eq!(10, edges.len());
}

#[test]
fn walk_back_keeps_order_and_repeats() {
    let trail = stubbed_path();
    let edges = walk_back(&trail, trail.len() - 1);

    assert_eq!(11, edges.len());
    assert_eq!(9, edges[0].index);
    assert_eq!(0, edges[9].index);
    assert_eq!(0, edges[10].index);
}

#[test]
fn should_find_path_with_depth_first_search_in_undirected_graph() {
    let graph = undirected_graph();
    let dfs = in_graph(0, 2, &graph, Box::from(DepthFirstSearch {}));

    assert_eq!(1.4285715, in_sevenths(&dfs.edges));
}

#[test]
fn should_find_path_with_depth_first_search_in_directed_graph() {
    let dfs = in_graph(4, 1, &directed_graph(), Box::from(DepthFirstSearch {}));

    assert_eq!(39, calc_cost(&dfs.edges));
}

#[test]
fn should_find_path_with_breadth_first_search_in_undirected_graph() {
    let graph = undirected_graph();
    let bfs = in_graph(0, 2, &graph, Box::from(BreadthFirstSearch {}));

    assert_eq!(0.2857143, in_sevenths(&bfs.edges));
}

#[test]
fn should_find_path_with_breadth_first_search_in_directed_graph() {
    let bfs = in_graph(4, 1, &directed_graph(), Box::from(BreadthFirstSearch {}));

    assert_eq!(39, calc_cost(&bfs.edges));
}

#[test]
fn should_find_path_with_bi_breadth_first_search_in_undirected_graph() {
    let graph = undirected_graph();
    let bfs = in_graph(0, 2, &graph, Box::from(BreadthFirstSearch {}));

    assert_eq!(0.2857143, in_sevenths(&bfs.edges));
}

#[test]
fn should_find_path_with_bi_breadth_first_search_in_directed_graph() {
    let bfs = in_graph(4, 1, &directed_graph(), Box::from(BiBreadthFirstSearch {}));

    assert_eq!(39, calc_cost(&bfs.edges));
}

#[test]
fn should_find_path_with_one_edge() {
    let mut edges = Vec::new();
    edges.push(Edge::from(0, 0, 1, 1));
    let bfs = in_graph(0, 1, &Graph::from(edges), Box::from(BiBreadthFirstSearch {}));

    assert_eq!(1, calc_cost(&bfs.edges));
    assert_eq!(1, bfs.edges.len());
}

#[test]
fn should_not_find_path_with_same_target_and_source() {
    let mut edges = Vec::new();
    edges.push(Edge::from(0, 0, 1, 1));
    let bfs = in_graph(1, 1, &Graph::from(edges), Box::from(BiBreadthFirstSearch {}));

    assert_eq!(0, calc_cost(&bfs.edges));
    assert_eq!(0, bfs.edges.len());
}

#[test]
fn should_not_find_path_with_unknown_target() {
    let mut edges = Vec::new();
    edges.push(Edge::from(0, 0, 1, 1));
    let bfs = in_graph(0, 2, &Graph::from(edges), Box::from(BiBreadthFirstSearch {}));

    assert_eq!(0, calc_cost(&bfs.edges));
    assert_eq!(0, bfs.edges.len());
}

#[test]
fn should_not_find_path_with_unknown_source() {
    let mut edges = Vec::new();
    edges.push(Edge::from(0, 0, 1, 1));
    let bfs = in_graph(2, 0, &Graph::from(edges), Box::from(BiBreadthFirstSearch {}));

    assert_eq!(0, calc_cost(&bfs.edges));
    assert_eq!(0, bfs.edges.len());
}

#[test]
fn should_find_path_with_source_and_target_reversed() {
    let mut edges = Vec::new();
    edges.push(Edge::from(0, 0, 1, 1));
    let bfs = in_graph(1, 0, &Graph::from(edges), Box::from(BiBreadthFirstSearch {}));

    assert_eq!(1, calc_cost(&bfs.edges));
    assert_eq!(1, bfs.edges.len());
}

#[test]
fn one_edge_with_every_strategy() {
    let graph = Graph::from(vec![Edge::from(0, 0, 1, 1)]);

    for found in [
        in_graph(0, 1, &graph, Box::from(DepthFirstSearch {})),
        in_graph(0, 1, &graph, Box::from(BreadthFirstSearch {})),
        in_graph(0, 1, &graph, Box::from(Dijkstra {})),
    ] {
        assert_eq!(1, found.edges.len());
        assert_eq!(1, calc_cost(&found.edges));
    }
    for empty in [
        in_graph(1, 1, &graph, Box::from(DepthFirstSearch {})),
        in_graph(1, 1, &graph, Box::from(BreadthFirstSearch {})),
        in_graph(1, 1, &graph, Box::from(Dijkstra {})),
        in_graph(2, 0, &graph, Box::from(DepthFirstSearch {})),
        in_graph(2, 0, &graph, Box::from(Dijkstra {})),
        in_graph(1, 0, &graph, Box::from(BreadthFirstSearch {})),
    ] {
        assert_eq!(0, empty.edges.len());
    }
}

#[test]
fn should_find_path_with_a_star_and_inconsistent_heuristic() {
    let a_star = in_graph(
        0,
        4,
        &Graph::from(a_star_edges()),
        Box::from(AStar { heuristic: inconsistent() }),
    );

    assert_eq!(6, calc_cost(&a_star.edges));
    assert_eq!(3, a_star.edges.len());
}

#[test]
fn should_find_path_with_a_star_and_consistent_heuristic() {
    let algo = AStar { heuristic: consistent() };
    let a_star = in_graph(0, 4, &Graph::from(a_star_edges()), Box::from(algo));

    assert_eq!(5, calc_cost(&a_star.edges));
    assert_eq!(3, a_star.edges.len());
}

#[test]
fn dijkstra_and_consistent_a_star_agree() {
    let graph = Graph::from(a_star_edges());
    let dijkstra = in_graph(0, 4, &graph, Box::from(Dijkstra {}));
    let a_star = in_graph(0, 4, &graph, Box::from(AStar { heuristic: consistent() }));

    assert_eq!(calc_cost(&dijkstra.edges), calc_cost(&a_star.edges));
    assert_eq!(5, calc_cost(&dijkstra.edges));
}

#[test]
fn should_find_path_with_bi_breadth_first_search_in_graphs_with_one_connection() {
    let bfs = in_graph(0, 13, &graphs_with_one_connection(), Box::from(BiBreadthFirstSearch {}));

    assert_eq!(50, calc_cost(&bfs.edges));
}

#[test]
fn should_find_path_with_dijkstra_in_graphs_with_one_connection() {
    let dijkstra = in_graph(0, 13, &graphs_with_one_connection(), Box::from(Dijkstra {}));

    assert_eq!(50, calc_cost(&dijkstra.edges));
}

#[test]
fn bidirectional_and_breadth_first_agree_on_unique_path() {
    let graph = graphs_with_one_connection();
    let bi = in_graph(0, 13, &graph, Box::from(BiBreadthFirstSearch {}));
    let bfs = in_graph(0, 13, &graph, Box::from(BreadthFirstSearch {}));

    assert_eq!(calc_cost(&bfs.edges), calc_cost(&bi.edges));
}

#[test]
fn breadth_first_is_not_longer_than_depth_first() {
    let graph = undirected_graph();
    for (source, target) in [(0, 2), (2, 4), (4, 1), (3, 0)] {
        let bfs = in_graph(source, target, &graph, Box::from(BreadthFirstSearch {}));
        let dfs = in_graph(source, target, &graph, Box::from(DepthFirstSearch {}));
        assert!(bfs.edges.len() <= dfs.edges.len());
        assert!(bfs.edges.len() > 0);
    }
}

#[test]
fn should_find_path_with_dijkstra_between_a_and_b() {
    let graph = dijkstra_graph();

    let dij = Dijkstra {};
    let path = dij.graph(
        graph.nodes_lookup.get(&0).unwrap(),
        graph.nodes_lookup.get(&1).unwrap(),
        &graph,
    );

    assert_eq!(3, calc_cost(&path.edges));
    assert_eq!(2, path.edges.len());
}

#[test]
fn should_find_path_with_dijkstra_between_a_and_c() {
    let graph = dijkstra_graph();

    let dij = Dijkstra {};
    let path = dij.graph(
        graph.nodes_lookup.get(&0).unwrap(),
        graph.nodes_lookup.get(&2).unwrap(),
        &graph,
    );

    assert_eq!(2, calc_cost(&path.edges));
    assert_eq!(1, path.edges.len());
}

#[test]
fn should_find_path_with_dijkstra_between_a_and_d() {
    let graph = dijkstra_graph();

    let dij = Dijkstra {};
    let path = dij.graph(
        graph.nodes_lookup.get(&0).unwrap(),
        graph.nodes_lookup.get(&3).unwrap(),
        &graph,
    );

    assert_eq!(5, calc_cost(&path.edges));
    assert_eq!(3, path.edges.len());
}

#[test]
fn should_find_path_with_dijkstra_between_a_and_e() {
    let graph = dijkstra_graph();

    let dij = Dijkstra {};
    let path = dij.graph(
        graph.nodes_lookup.get(&0).unwrap(),
        graph.nodes_lookup.get(&4).unwrap(),
        &graph,
    );

    assert_eq!(6, calc_cost(&path.edges));
    assert_eq!(3, path.edges.len());
}

#[test]
fn should_find_path_with_disjoint_graphs() {
    let graph = disjoint_graph();

    let dij = Dijkstra {};
    let path = dij.graph(
        graph.nodes_lookup.get(&0).unwrap(),
        graph.nodes_lookup.get(&3).unwrap(),
        &graph,
    );

    assert_eq!(0, calc_cost(&path.edges));
    assert_eq!(0, path.edges.len());
}

#[test]
fn dijkstra_path_runs_from_source_to_target() {
    let graph = dijkstra_graph();
    let path = in_graph(0, 3, &graph, Box::from(Dijkstra {}));

    assert_eq!(0, path.edges[0].source);
    assert_eq!(3, path.edges[path.edges.len() - 1].destination);
}

#[test]
fn breadth_first_path_runs_back_from_target() {
    let path = in_graph(4, 1, &directed_graph(), Box::from(BreadthFirstSearch {}));

    assert_eq!(1, path.edges[0].destination);
    assert_eq!(4, path.edges[path.edges.len() - 1].source);
}

fn open_grid() -> Grid {
    Grid::from(&vec![vec![1, 1, 1], vec![1, 9, 1], vec![1, 1, 1]]).unwrap()
}

const ALL: [Direction; 8] = [
    Direction::Up,
    Direction::Down,
    Direction::Left,
    Direction::Right,
    Direction::UpLeft,
    Direction::UpRight,
    Direction::DownLeft,
    Direction::DownRight,
];

const STRAIGHT: [Direction; 4] = [Direction::Up, Direction::Down, Direction::Left, Direction::Right];

#[test]
fn grid_dijkstra_goes_around_expensive_cell() {
    let found = in_grid((0, 1), (2, 1), &open_grid(), &STRAIGHT, Box::from(Dijkstra {}));

    assert_eq!(4, found.edges.len());
    assert_eq!(4, calc_cost(&found.edges));
}

#[test]
fn grid_breadth_first_takes_fewest_moves() {
    let found = in_grid((0, 0), (2, 2), &open_grid(), &ALL, Box::from(BreadthFirstSearch {}));

    assert_eq!(2, found.edges.len());
}

#[test]
fn grid_searches_skip_impassable_cells() {
    let grid = Grid::from(&vec![vec![1, u64::MAX, 1]]).unwrap();

    for found in [
        in_grid((0, 0), (0, 2), &grid, &ALL, Box::from(DepthFirstSearch {})),
        in_grid((0, 0), (0, 2), &grid, &ALL, Box::from(BreadthFirstSearch {})),
        in_grid((0, 0), (0, 2), &grid, &ALL, Box::from(BiBreadthFirstSearch {})),
        in_grid((0, 0), (0, 2), &grid, &ALL, Box::from(Dijkstra {})),
    ] {
        assert_eq!(0, found.edges.len());
    }
}

#[test]
fn grid_search_outside_is_empty() {
    let found = in_grid((0, 0), (3, 0), &open_grid(), &ALL, Box::from(DepthFirstSearch {}));

    assert_eq!(0, found.edges.len());
}

#[test]
fn grid_search_every_strategy_finds_a_path() {
    let grid = open_grid();
    for found in [
        in_grid((0, 0), (2, 2), &grid, &STRAIGHT, Box::from(DepthFirstSearch {})),
        in_grid((0, 0), (2, 2), &grid, &STRAIGHT, Box::from(BreadthFirstSearch {})),
        in_grid((0, 0), (2, 2), &grid, &STRAIGHT, Box::from(BiBreadthFirstSearch {})),
        in_grid((0, 0), (2, 2), &grid, &STRAIGHT, Box::from(Dijkstra {})),
    ] {
        assert!(found.edges.len() > 0);
        for edge in &found.edges {
            assert_eq!(edge.index, edge.destination);
            assert_eq!(grid.cost(edge.destination).unwrap(), edge.weight);
        }
    }
}

#[test]
fn later_discovery_overwrites_the_path() {
    let graph = Graph::from(vec![
        Edge::from(0, 0, 1, 2),
        Edge::from(1, 0, 2, 1),
        Edge::from(2, 2, 1, 5),
    ]);
    let dijkstra = in_graph(0, 1, &graph, Box::from(Dijkstra {}));
    let heuristic = Table(HashMap::from([((0, 1), 2), ((1, 1), 0), ((2, 1), 5)]));
    let a_star = in_graph(0, 1, &graph, Box::from(AStar { heuristic }));

    assert_eq!(6, calc_cost(&dijkstra.edges));
    assert_eq!(2, calc_cost(&a_star.edges));
}

#[test]
fn bidirectional_meets_through_edges_leaving_the_target() {
    let graph = Graph::from(vec![
        Edge::from(0, 0, 1, 1),
        Edge::from(1, 1, 2, 1),
        Edge::from(2, 2, 3, 1),
        Edge::from(3, 3, 4, 1),
        Edge::from(4, 4, 3, 100),
    ]);
    let bfs = in_graph(0, 4, &graph, Box::from(BreadthFirstSearch {}));
    let bi = in_graph(0, 4, &graph, Box::from(BiBreadthFirstSearch {}));

    assert_eq!(4, calc_cost(&bfs.edges));
    assert_eq!(103, calc_cost(&bi.edges));
}

#[test]
fn hierarchical_a_star_finds_nothing() {
    let found = in_graph(0, 1, &Graph::from(vec![Edge::from(0, 0, 1, 1)]), Box::from(HierarchicalAStar { heuristic: consistent() }));

    assert_eq!(0, found.edges.len());
}

#[test]
fn depth_first_path_repeats_no_node() {
    let graph = undirected_graph();
    let dfs = in_graph(0, 2, &graph, Box::from(DepthFirstSearch {}));
    let mut nodes: Vec<usize> = dfs.edges.iter().map(|e| e.destination).collect();
    nodes.push(0);
    let count = nodes.len();
    nodes.sort();
    nodes.dedup();

    assert_eq!(count, nodes.len());
}

#[test]
fn bidirectional_returns_first_direct_edge_alone() {
    let graph = Graph::from(vec![
        Edge::from(0, 0, 2, 1),
        Edge::from(1, 2, 1, 1),
        Edge::from(2, 0, 1, 9),
        Edge::from(3, 0, 1, 4),
    ]);
    let found = in_graph(0, 1, &graph, Box::from(BiBreadthFirstSearch {}));

    assert_eq!(1, found.edges.len());
    assert_eq!(2, found.edges[0].index);
}
