use std::collections::HashMap;

use pathfinding_graph::graph::{minimum_spanning, Edge, Graph};
use pathfinding_graph::grid::LookupError;
use pathfinding_graph::node::{Node, Position};

fn total(edges: &Vec<Edge>) -> u64 {
    let mut total_cost: u64 = 0;
    for edge in edges {
        total_cost += edge.weight;
    }
    total_cost
}

fn classic_matrix() -> Vec<Vec<u64>> {
    vec![
        vec![0, 4, 0, 0, 0, 0, 0, 8, 0],
        vec![4, 0, 8, 0, 0, 0, 0, 11, 0],
        vec![0, 8, 0, 7, 0, 4, 0, 0, 2],
        vec![0, 0, 7, 0, 9, 14, 0, 0, 0],
        vec![0, 0, 0, 9, 0, 10, 0, 0, 0],
        vec![0, 0, 4, 14, 10, 0, 2, 0, 0],
        vec![0, 0, 0, 0, 0, 2, 0, 1, 6],
        vec![8, 11, 0, 0, 0, 0, 1, 0, 7],
        vec![0, 0, 2, 0, 0, 0, 6, 7, 0],
    ]
}

#[test]
fn mst_should_return_graph() {
    let edge = Edge::from(0, 0, 1, 5);
    let graph = Graph::from(Vec::from([edge]));
    let min_graph = minimum_spanning(graph);

    assert_eq!(1, min_graph.edges_lookup.keys().count());
    assert_eq!(2, min_graph.nodes_lookup.keys().count());
}

#[test]
fn mst_should_return_graph_with_source_node_having_one_edge() {
    let edge = Edge::from(0, 0, 1, 5);
    let graph = Graph::from(Vec::from([edge]));
    let min_graph = minimum_spanning(graph);

    let source_node = min_graph.nodes_lookup.get(&0).unwrap();
    assert_eq!(1, source_node.edges.to_vec().len());
    assert!(min_graph.nodes_lookup.contains_key(&0));
    assert!(min_graph.nodes_lookup.contains_key(&1));
}

#[test]
fn mst_should_return_minimum_spanning_tree() {
    // weights in sevenths
    let edge1 = Edge::from(0, 1, 2, 0);
    let edge2 = Edge::from(1, 2, 3, 1);
    let edge3 = Edge::from(2, 1, 0, 2);
    let edge4 = Edge::from(3, 3, 4, 2);
    let edge5 = Edge::from(4, 1, 3, 3);
    let edge6 = Edge::from(5, 0, 3, 6);
    let edge7 = Edge::from(6, 0, 4, 7);

    let graph = Graph::from(Vec::from([edge1, edge2, edge3, edge4, edge5, edge6, edge7]));
    let min_graph = minimum_spanning(graph);

    let total_cost = total(&min_graph.edges) as f32 / 7.0;

    assert_eq!(0.7142857143, total_cost);
    assert_eq!(4, min_graph.edges.len());
}

#[test]
fn mst_of_classic_matrix_graph() {
    let graph = Graph::from_adjacency_matrix(&classic_matrix());
    let node_count = graph.node_count;
    let min_graph = minimum_spanning(graph);

    assert_eq!(37, total(&min_graph.edges));
    assert_eq!(node_count - 1, min_graph.edges.len());
}

#[test]
fn mst_twice_keeps_the_weight() {
    let graph = Graph::from_adjacency_matrix(&classic_matrix());
    let once = minimum_spanning(graph);
    let once_total = total(&once.edges);
    let once_len = once.edges.len();
    let twice = minimum_spanning(once);

    assert_eq!(once_total, total(&twice.edges));
    assert_eq!(once_len, twice.edges.len());
}

#[test]
fn mst_of_disconnected_graph_is_a_forest() {
    let graph = Graph::from(vec![
        Edge::from(0, 0, 1, 3),
        Edge::from(1, 1, 0, 1),
        Edge::from(2, 2, 3, 4),
        Edge::from(3, 3, 2, 5),
    ]);
    let min_graph = minimum_spanning(graph);

    assert_eq!(2, min_graph.edges.len());
    assert_eq!(5, total(&min_graph.edges));
}

#[test]
fn mst_keeps_the_earlier_of_equal_weights() {
    let graph = Graph::from(vec![
        Edge::from(0, 0, 1, 2),
        Edge::from(1, 1, 0, 2),
        Edge::from(2, 1, 2, 1),
    ]);
    let min_graph = minimum_spanning(graph);

    assert_eq!(vec![2, 0], min_graph.edges.iter().map(|e| e.index).collect::<Vec<_>>());
}

#[test]
fn edge_from_should_construct_edge() {
    let edge = Edge::from(0, 2, 3, 5);

    assert_eq!(0, edge.index);
    assert_eq!(2, edge.source);
    assert_eq!(3, edge.destination);
    assert_eq!(5, edge.weight);
}

#[test]
fn edges_are_equal_by_index() {
    assert!(Edge::from(4, 0, 1, 2) == Edge::from(4, 2, 3, 9));
    assert!(Edge::from(4, 0, 1, 2) != Edge::from(5, 0, 1, 2));
}

#[test]
fn sorted_by_weight_asc_should_return_sorted_vec() {
    // weights in tenths
    let edge3 = Edge::from(2, 2, 3, 3);
    let edge4 = Edge::from(3, 2, 3, 7);
    let edge1 = Edge::from(0, 2, 3, 5);
    let edge2 = Edge::from(1, 2, 3, 2);

    let graph = Graph::from(Vec::from([edge1, edge2, edge3, edge4]));
    let sorted_edges = graph.sorted_by_weight_asc();

    assert_eq!(2, sorted_edges[0].weight);
    assert_eq!(3, sorted_edges[1].weight);
    assert_eq!(5, sorted_edges[2].weight);
    assert_eq!(7, sorted_edges[3].weight);
}

#[test]
fn sorted_by_weight_asc_is_stable() {
    let graph = Graph::from(vec![
        Edge::from(0, 0, 1, 3),
        Edge::from(1, 0, 1, 1),
        Edge::from(2, 0, 1, 3),
        Edge::from(3, 0, 1, 1),
    ]);
    let sorted_edges = graph.sorted_by_weight_asc();

    assert_eq!(vec![1, 3, 0, 2], sorted_edges.iter().map(|e| e.index).collect::<Vec<_>>());
}

#[test]
fn create_graph_from_adjacency_matrix() {
    let graph = Graph::from_adjacency_matrix(&classic_matrix());

    assert_eq!(28, graph.edges.len());
    assert_eq!(2, graph.nodes_lookup.get(&0).unwrap().edges.len());
    assert_eq!(3, graph.nodes_lookup.get(&8).unwrap().edges.len());
    assert_eq!(2, graph.nodes_lookup.get(&8).unwrap().edges[0].weight);
    assert_eq!(9 * 8 + 2, graph.nodes_lookup.get(&8).unwrap().edges[0].index);
    assert_eq!(9, graph.node_count);
}

#[test]
fn graph_from_keeps_destination_only_nodes() {
    let graph = Graph::from(vec![Edge::from(0, 2, 3, 5)]);

    assert_eq!(2, graph.node_count);
    assert!(graph.nodes_lookup.get(&3).unwrap().edges.is_empty());
    assert_eq!(3, graph.nodes_lookup.get(&3).unwrap().id);
    assert_eq!(5, graph.edges_lookup.get(&0).unwrap().weight);
}

#[test]
fn create_initial_graph_should_not_have_node_positions() {
    let edge = Edge::from(0, 2, 3, 5);
    let graph = Graph::from(Vec::from([edge]));

    assert!(graph.node_position_lookup.is_none());
    assert!(!graph.position_is_set());
    assert_eq!(Err(LookupError::ConfigurationError), graph.verify_positions());
}

#[test]
fn offer_node_positions_should_set_node_positions() {
    let edge = Edge::from(0, 2, 3, 5);
    let mut graph = Graph::from(Vec::from([edge.clone()]));

    let mut node_positions: HashMap<usize, Position> = HashMap::new();
    node_positions.insert(
        (&edge).source.clone(),
        Position::from(0.3f32.to_bits(), 0.2f32.to_bits(), 0.0f32.to_bits()),
    );
    node_positions.insert(
        (&edge).destination.clone(),
        Position::from(0.1f32.to_bits(), 0.5f32.to_bits(), 0.0f32.to_bits()),
    );

    graph.offer_positions(node_positions);

    assert!(graph.node_position_lookup.is_some());
    assert_eq!(Ok(()), graph.verify_positions());

    let position_lookup = graph.node_position_lookup.unwrap();
    assert_eq!(0.3, f32::from_bits(position_lookup.get(&(&edge).source).unwrap().x));
    assert_eq!(0.1, f32::from_bits(position_lookup.get(&(&edge).destination).unwrap().x));
}

#[test]
fn missing_node_positions_is_configuration_error() {
    let graph = Graph::from(Vec::from([Edge::from(0, 0, 1, 4)]));

    assert_eq!(Err(LookupError::ConfigurationError), graph.get_position(&1));
}

#[test]
fn missing_node_position_is_missing_position() {
    let mut graph = Graph::from(Vec::from([Edge::from(0, 0, 1, 4)]));

    graph.offer_positions(HashMap::from([(0, Position::from(0, 0, 0))]));

    assert_eq!(Err(LookupError::MissingPosition(1)), graph.get_position(&1));
}

#[test]
fn node_position_should_be_returned() {
    let mut graph = Graph::from(Vec::from([Edge::from(0, 0, 1, 4)]));

    graph.offer_positions(HashMap::from([(
        1,
        Position::from(0.1f32.to_bits(), 0.2f32.to_bits(), 0.3f32.to_bits()),
    )]));
    let pos = graph.get_position(&1).unwrap();

    assert_eq!(0.1, f32::from_bits(pos.x));
    assert_eq!(0.2, f32::from_bits(pos.y));
    assert_eq!(0.3, f32::from_bits(pos.z));
}

#[test]
fn create_node_should_succeed() {
    let node = Node::from(1, vec![]);

    assert_eq!(1, node.id);
    assert!(node.edges.is_empty());
}
