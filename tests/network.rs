use std::collections::{HashMap, HashSet};
use std::hash::Hash;

use rimulation::graph::Edge;
use rimulation::network::{count_visit, extract_feed, filter_network, find_feed, split_nodes, Network, NetworkError, Node};
use rimulation::spanning::find_spanning_tree;

type TestNode = Node<i32, ()>;

const DUMMY_CONST_SIGNAL: i32 = 1;

fn set_of<T: Clone + Eq + Hash>(values: &[T]) -> HashSet<T> {
    HashSet::from_iter(values.iter().cloned())
}

fn zero(i: usize) -> TestNode {
    Node::Zero { name: format!("N{}", i), position: () }
}

fn pressure(i: usize) -> TestNode {
    Node::Pressure {
        name: format!("N{}", i),
        pressure: DUMMY_CONST_SIGNAL,
        temperature: DUMMY_CONST_SIGNAL,
        position: (),
    }
}

fn demand(i: usize) -> TestNode {
    Node::Demand { name: format!("N{}", i), demand: DUMMY_CONST_SIGNAL, position: () }
}

fn edges_from_pairs(pairs: &[(usize, usize)]) -> Vec<Edge> {
    pairs.iter().cloned().map(|(src, tgt)| Edge { src, tgt }).collect()
}

fn create_test_nodes_and_edges(
    num_nodes: usize,
    edges: &[(usize, usize)],
) -> (Vec<TestNode>, Vec<Edge>, Vec<()>) {
    let nodes = (0..num_nodes).map(zero).collect();
    let edges = edges_from_pairs(edges);
    let edge_parameters = edges.iter().map(|_| ()).collect();
    (nodes, edges, edge_parameters)
}

fn assert_find_feed(
    name: &str,
    num_nodes: usize,
    edges: &[(usize, usize)],
    start_node: usize,
    expected_nodes: &[usize],
    expected_edges: &[usize],
) {
    let (nodes, edges, _) = create_test_nodes_and_edges(num_nodes, edges);
    let (nodes, edges) = find_feed(&nodes, &edges, start_node).expect("could not find feed of network");
    assert_eq!(nodes, set_of(expected_nodes), "feed nodes not as expected in test case '{}'", name);
    assert_eq!(edges, set_of(expected_edges), "feed edges not as expected in test case '{}'", name);
}

fn check_find_feed_cases() {
    assert_find_feed("one edge", 2, &[(0, 1)], 0, &[0, 1], &[0]);
    assert_find_feed("small loop", 3, &[(0, 1), (0, 2), (1, 2)], 0, &[0, 1, 2], &[0, 1, 2]);
    assert_find_feed(
        "disconnected loops",
        6,
        &[(0, 1), (0, 2), (1, 2), (3, 4), (3, 5), (4, 5)],
        0,
        &[0, 1, 2],
        &[0, 1, 2],
    );
}

#[test]
fn test_find_feed_of_network() {
    check_find_feed_cases();
}

#[test]
fn test_find_feed() {
    check_find_feed_cases();
}

#[test]
fn find_feed_rejects_unknown_start_and_dangling_edges() {
    let (nodes, edges, _) = create_test_nodes_and_edges(2, &[(0, 1)]);
    assert_eq!(find_feed(&nodes, &edges, 2), Err(NetworkError::UnknownNode { node: 2 }));
    let (nodes, edges, _) = create_test_nodes_and_edges(2, &[(0, 1), (1, 5)]);
    assert_eq!(find_feed(&nodes, &edges, 0), Err(NetworkError::DanglingEdge { edge: 1 }));
}

fn assert_filter_network(
    name: &str,
    num_nodes: usize,
    edges: &[(usize, usize)],
    nodes_to_keep: &[usize],
    edges_to_keep: &[usize],
    expected_nodes: &[usize],
    expected_edges: &[(usize, usize)],
) {
    let (nodes, edges, edge_parameters) = create_test_nodes_and_edges(num_nodes, edges);
    let nodes_to_keep = nodes_to_keep.iter().cloned().collect();
    let edges_to_keep = edges_to_keep.iter().cloned().collect();

    let (filtered_nodes, filtered_edges, _) =
        filter_network(nodes, edges, edge_parameters, nodes_to_keep, edges_to_keep)
            .expect("filtering did not work");

    assert_eq!(
        filtered_nodes,
        expected_nodes.iter().map(|i| zero(*i)).collect::<Vec<_>>(),
        "filtered nodes not as expected in test case '{}'",
        name
    );
    assert_eq!(
        filtered_edges,
        edges_from_pairs(expected_edges),
        "filtered nodes not as expected in test case '{}'",
        name
    );
}

fn check_filter_network_cases() {
    let path = [(0, 1), (1, 2), (2, 3), (3, 4)];
    assert_filter_network("keep all", 5, &path, &[0, 1, 2, 3, 4], &[0, 1, 2, 3], &[0, 1, 2, 3, 4], &path);
    assert_filter_network(
        "remove one node at the end",
        5,
        &path,
        &[0, 1, 2, 3],
        &[0, 1, 2],
        &[0, 1, 2, 3],
        &[(0, 1), (1, 2), (2, 3)],
    );
    assert_filter_network("remove all but one node", 5, &path, &[0], &[], &[0], &[]);
    assert_filter_network(
        "remove first node",
        5,
        &path,
        &[1, 2, 3, 4],
        &[1, 2, 3],
        &[1, 2, 3, 4],
        &[(0, 1), (1, 2), (2, 3)],
    );
    assert_filter_network(
        "remove first node and middle",
        5,
        &path,
        &[1, 3, 4],
        &[3],
        &[1, 3, 4],
        &[(1, 2)],
    );
}

#[test]
fn test_test_filter_network() {
    check_filter_network_cases();
}

#[test]
fn test_filter_network() {
    check_filter_network_cases();
}

#[test]
fn filter_network_rejects_edge_to_dropped_node() {
    let (nodes, edges, edge_parameters) = create_test_nodes_and_edges(3, &[(0, 1), (1, 2)]);
    let result = filter_network(nodes, edges, edge_parameters, set_of(&[0, 1]), set_of(&[0, 1]));
    assert_eq!(result, Err(NetworkError::UnknownNode { node: 2 }));
}

#[test]
fn filter_network_keeps_matching_parameters() {
    let nodes: Vec<TestNode> = (0..4).map(zero).collect();
    let edges = edges_from_pairs(&[(0, 1), (1, 2), (2, 3)]);
    let parameters = vec![10, 20, 30];
    let (_, _, kept) =
        filter_network(nodes, edges, parameters, set_of(&[1, 2, 3]), set_of(&[1, 2])).expect("filtering did not work");
    assert_eq!(kept, vec![20, 30]);
}

fn assert_find_spanning_tree(
    name: &str,
    num_nodes: usize,
    edges: &[(usize, usize)],
    expected_spanning_tree: &[usize],
    expected_pred_nodes: Option<&[(usize, usize)]>,
) {
    let (nodes, edges, _) = create_test_nodes_and_edges(num_nodes, edges);
    let (root_node_index, spanning_tree, cycle_edges, pred_nodes) =
        find_spanning_tree(&nodes, &edges).expect("could not compute spanning tree");

    let expected_spanning_tree = set_of(expected_spanning_tree);
    let expected_cycle_edges: HashSet<usize> =
        HashSet::from_iter((0..edges.len()).filter(|i| !expected_spanning_tree.contains(i)));

    assert_eq!(root_node_index, 0);
    assert_eq!(spanning_tree, expected_spanning_tree, "spanning tree unexpected for the test case '{}'", name);
    assert_eq!(cycle_edges, expected_cycle_edges, "cycle edges unexpected for the test case '{}'", name);
    if let Some(expected) = expected_pred_nodes {
        let expected: HashMap<usize, usize> = expected.iter().cloned().collect();
        assert_eq!(pred_nodes, expected);
    }
}

const TWO_CYCLES_A: [(usize, usize); 9] =
    [(0, 1), (1, 2), (2, 3), (2, 4), (3, 5), (4, 5), (5, 6), (6, 7), (7, 1)];
const TWO_CYCLES_B: [(usize, usize); 6] = [(0, 2), (0, 1), (1, 2), (1, 3), (2, 3), (2, 4)];

#[test]
fn test_find_spanning_tree_of_net() {
    assert_find_spanning_tree("single edge", 2, &[(0, 1)], &[0], Some(&[(1, 0)]));
    assert_find_spanning_tree("two edges", 3, &[(0, 1), (0, 2)], &[0, 1], Some(&[(1, 0), (2, 0)]));
    assert_find_spanning_tree(
        "small cycle",
        3,
        &[(0, 1), (0, 2), (1, 2)],
        &[0, 1],
        Some(&[(2, 1), (2, 0), (1, 0)]),
    );
    assert_find_spanning_tree(
        "two cycles",
        8,
        &TWO_CYCLES_A,
        &[0, 1, 2, 3, 4, 7, 8],
        Some(&[(1, 0), (2, 1), (3, 2), (4, 2), (5, 3), (7, 1), (6, 7)]),
    );
    assert_find_spanning_tree(
        "two cycles",
        8,
        &TWO_CYCLES_B,
        &[0, 1, 4, 5],
        Some(&[(1, 0), (2, 0), (3, 2), (4, 2)]),
    );
}

#[test]
fn test_find_spanning_tree() {
    assert_find_spanning_tree("single edge", 2, &[(0, 1)], &[0], None);
    assert_find_spanning_tree("two edges", 3, &[(0, 1), (0, 2)], &[0, 1], None);
    assert_find_spanning_tree("small cycle", 3, &[(0, 1), (0, 2), (1, 2)], &[0, 1], None);
    assert_find_spanning_tree("two cycles", 8, &TWO_CYCLES_A, &[0, 1, 2, 3, 4, 7, 8], None);
    assert_find_spanning_tree("two cycles", 8, &TWO_CYCLES_B, &[0, 1, 4, 5], None);
}

#[test]
fn find_spanning_tree_starts_at_pressure_node_and_rejects_bad_input() {
    let nodes = vec![zero(0), zero(1), pressure(2)];
    let edges = edges_from_pairs(&[(0, 1), (1, 2)]);
    let (root, tree, cycles, pred) = find_spanning_tree(&nodes, &edges).expect("spanning tree");
    assert_eq!(root, 2);
    assert_eq!(tree, set_of(&[0, 1]));
    assert!(cycles.is_empty());
    assert_eq!(pred, [(1, 2), (0, 1)].into_iter().collect::<HashMap<_, _>>());

    let empty: Vec<TestNode> = vec![];
    assert_eq!(find_spanning_tree(&empty, &[]), Err(NetworkError::UnknownNode { node: 0 }));
    assert_eq!(
        find_spanning_tree(&nodes, &edges_from_pairs(&[(0, 3)])),
        Err(NetworkError::DanglingEdge { edge: 0 })
    );
}

#[test]
fn test_from_feed() {
    let pressure_nodes = vec![pressure(0)];
    let demand_nodes: Vec<TestNode> = (1..5).map(demand).collect();
    let nodes = [pressure_nodes.clone(), demand_nodes.clone()].concat();
    let edges = edges_from_pairs(&[(0, 1), (0, 2), (1, 3), (1, 4), (4, 2)]);
    let edge_parameters: Vec<()> = (0..edges.len()).map(|_| ()).collect();

    let network = Network::try_from_feed(nodes, edges, edge_parameters.clone()).expect("could not compute the network");

    let expected_spanning_tree_edges = edges_from_pairs(&[(4, 0), (4, 1), (0, 2), (0, 3)]);
    let expected_cycle_edges = edges_from_pairs(&[(3, 1)]);
    let expected_pred_nodes: HashMap<usize, usize> = [(0, 4), (1, 4), (2, 0), (3, 0)].into_iter().collect();
    let expected_adjacent_edges: HashMap<usize, Vec<usize>> = [
        (0, vec![0, 2, 3]),
        (1, vec![1, 4]),
        (2, vec![2]),
        (3, vec![3, 4]),
        (4, vec![0, 1]),
    ]
    .iter()
    .cloned()
    .collect();

    assert_eq!(
        network,
        Network {
            demand_nodes,
            pressure_nodes,
            root_node_index: 4,
            spanning_tree_edges: expected_spanning_tree_edges.clone(),
            cycle_edges: expected_cycle_edges.clone(),
            pred_nodes: expected_pred_nodes,
            adjacent_edges: expected_adjacent_edges,
            edge_parameters,
        }
    );

    let all_edges = [expected_spanning_tree_edges, expected_cycle_edges].concat();
    for (i, Edge { src, tgt }) in all_edges.iter().enumerate() {
        assert_eq!(network.edge_between(*src, *tgt), Some((i, false)));
        assert_eq!(network.edge_between(*tgt, *src), Some((i, true)));
    }
    assert_eq!(network.edge_between(2, 3), None);
}

#[test]
fn try_from_feed_reorders_parameters_and_reports_errors() {
    let nodes: Vec<TestNode> = vec![pressure(0), zero(1), zero(2)];
    let edges = edges_from_pairs(&[(1, 2), (0, 1), (0, 2)]);
    let network = Network::try_from_feed(nodes, edges, vec![10, 20, 30]).expect("network");
    // nodes become N1, N2, N0, so the first edge becomes (0, 1) and closes the loop
    assert_eq!(network.spanning_tree_edges, edges_from_pairs(&[(2, 0), (2, 1)]));
    assert_eq!(network.cycle_edges, edges_from_pairs(&[(0, 1)]));
    assert_eq!(network.edge_parameters, vec![20, 30, 10]);

    let dangling = Network::try_from_feed(vec![zero(0)], edges_from_pairs(&[(0, 1)]), vec![()]);
    assert_eq!(dangling, Err(NetworkError::DanglingEdge { edge: 0 }));

    let empty: Result<Network<i32, (), ()>, _> = Network::try_from_feed(vec![], vec![], vec![]);
    assert_eq!(empty, Err(NetworkError::UnknownNode { node: 0 }));

    let mismatch = Network::try_from_feed(vec![zero(0), zero(1)], edges_from_pairs(&[(0, 1)]), vec![(), ()]);
    assert_eq!(mismatch, Err(NetworkError::ParameterCount { edges: 1, parameters: 2 }));

    let disconnected = Network::try_from_feed(
        vec![pressure(0), zero(1), zero(2)],
        edges_from_pairs(&[(0, 1)]),
        vec![()],
    );
    assert_eq!(disconnected, Err(NetworkError::Disconnected { reached: 2, nodes: 3 }));
}

#[test]
fn test_reordering_demand_nodes() {
    let nodes = vec![zero(0), pressure(1), demand(2), zero(3), zero(4), pressure(5)];
    let edges = edges_from_pairs(&[(0, 1), (1, 2), (2, 3), (3, 4), (4, 5), (5, 0)]);

    let (demand_nodes, pressure_nodes, edges) = split_nodes(nodes, edges);

    assert_eq!(demand_nodes, vec![zero(0), demand(2), zero(3), zero(4)]);
    assert_eq!(pressure_nodes, vec![pressure(1), pressure(5)]);
    assert_eq!(edges, edges_from_pairs(&[(0, 4), (4, 1), (1, 2), (2, 3), (3, 5), (5, 0)]));
}

#[test]
fn extract_feed_keeps_component_of_source() {
    let nodes = vec![zero(0), pressure(1), zero(2), zero(3), zero(4)];
    let edges = edges_from_pairs(&[(3, 4), (1, 2), (0, 1), (4, 3)]);
    let (feed_nodes, feed_edges, feed_parameters) =
        extract_feed(nodes, edges, vec![1, 2, 3, 4]).expect("feed");
    assert_eq!(feed_nodes, vec![zero(0), pressure(1), zero(2)]);
    assert_eq!(feed_edges, edges_from_pairs(&[(1, 2), (0, 1)]));
    assert_eq!(feed_parameters, vec![2, 3]);

    let no_source = extract_feed(vec![zero(0)], vec![], Vec::<()>::new());
    assert_eq!(no_source, Err(NetworkError::NoSource));
}

#[test]
fn try_from_topology_requires_one_source() {
    let none: Result<Network<i32, (), ()>, _> =
        Network::try_from_topology(vec![zero(0), zero(1)], edges_from_pairs(&[(0, 1)]), vec![()]);
    assert_eq!(none, Err(NetworkError::NoSource));
    let two: Result<Network<i32, (), ()>, _> =
        Network::try_from_topology(vec![pressure(0), pressure(1)], edges_from_pairs(&[(0, 1)]), vec![()]);
    assert_eq!(two, Err(NetworkError::MultipleSources { count: 2 }));
}

/// Feed nodes 0..10 with a second copy of the edges on nodes 10..20 that is not connected.
#[test]
fn try_from_topology_drops_disconnected_part() {
    let feed_edges = [(0, 1), (1, 2), (1, 4), (2, 5), (3, 4), (3, 6), (4, 5), (5, 6), (7, 8)];
    let mut pairs = Vec::new();
    for (src, tgt) in feed_edges {
        pairs.push((src, tgt));
        pairs.push((src + 10, tgt + 10));
    }
    let nodes: Vec<TestNode> = (0..20)
        .map(|i| match i {
            0 => pressure(0),
            5 | 6 => demand(i),
            _ => zero(i),
        })
        .collect();
    let edges = edges_from_pairs(&pairs);
    let parameters: Vec<()> = edges.iter().map(|_| ()).collect();
    let network = Network::try_from_topology(nodes, edges, parameters).expect("network");

    let names: Vec<String> = (0..network.num_nodes())
        .map(|i| match network.get_node(i).expect("node") {
            Node::Pressure { name, .. } | Node::Demand { name, .. } | Node::Zero { name, .. } => name.clone(),
        })
        .collect();
    assert_eq!(names, ["N1", "N2", "N3", "N4", "N5", "N6", "N0"]);
    assert_eq!(network.demand_nodes.len(), 6);
    assert_eq!(
        network.edges(),
        edges_from_pairs(&[(6, 0), (0, 1), (0, 3), (1, 4), (2, 3), (4, 5), (2, 5), (3, 4)])
    );
    assert_eq!(network.spanning_tree_edges.len(), 6);
}

/// Diamond N0-N1, N0-N2, N1-N3, N2-N3 with cross edge N1-N2 and tail N3-N4.
#[test]
fn diamond_with_cross_edge_has_one_tree_and_two_cycles() {
    let nodes = vec![pressure(0), zero(1), zero(2), zero(3), zero(4)];
    let edges = edges_from_pairs(&[(0, 1), (0, 2), (1, 2), (1, 3), (2, 3), (3, 4)]);
    let parameters: Vec<()> = edges.iter().map(|_| ()).collect();
    let network = Network::try_from_feed(nodes, edges, parameters).expect("network");
    // N0 becomes index 4; the others move down by one
    assert_eq!(network.root_node_index, 4);
    assert_eq!(network.spanning_tree_edges, edges_from_pairs(&[(4, 0), (4, 1), (0, 2), (2, 3)]));
    assert_eq!(network.cycle_edges, edges_from_pairs(&[(0, 1), (1, 2)]));
    assert_eq!(network.spanning_tree_edges.len() + 1, network.num_nodes());
    assert_eq!(network.num_edges(), 6);
    assert_eq!(network.num_cycles(), 2);
}

#[test]
fn diamond_single_cross_edge_scenario() {
    let nodes = vec![pressure(0), zero(1), zero(2), zero(3), zero(4)];
    let edges = edges_from_pairs(&[(0, 1), (1, 2), (2, 3), (3, 4), (1, 3)]);
    let parameters: Vec<()> = edges.iter().map(|_| ()).collect();
    let network = Network::try_from_feed(nodes, edges, parameters).expect("network");
    assert_eq!(network.spanning_tree_edges, edges_from_pairs(&[(4, 0), (0, 1), (2, 3), (0, 2)]));
    assert_eq!(network.cycle_edges, edges_from_pairs(&[(1, 2)]));
    assert_eq!(network.num_cycles(), 1);
}

#[test]
fn resolving_a_resolved_network_again_keeps_it() {
    let nodes = vec![zero(0), pressure(1), demand(2), zero(3), zero(4)];
    let edges = edges_from_pairs(&[(0, 1), (1, 2), (2, 3), (3, 0), (3, 4), (4, 2)]);
    let parameters = vec![1, 2, 3, 4, 5, 6];
    let first = Network::try_from_feed(nodes, edges, parameters).expect("network");
    let second = Network::try_from_feed(
        [first.demand_nodes.clone(), first.pressure_nodes.clone()].concat(),
        first.edges(),
        first.edge_parameters.clone(),
    )
    .expect("network");
    assert_eq!(first, second);
}

#[test]
fn getters_report_unknown_indices() {
    let nodes = vec![pressure(0), zero(1)];
    let network = Network::try_from_feed(nodes, edges_from_pairs(&[(0, 1)]), vec![7]).expect("network");
    assert_eq!(network.get_node(0), Ok(&zero(1)));
    assert_eq!(network.get_node(1), Ok(&pressure(0)));
    assert_eq!(network.get_node(2), Err(NetworkError::UnknownNode { node: 2 }));
    assert_eq!(network.get_edge(0), Ok(&Edge { src: 1, tgt: 0 }));
    assert_eq!(network.get_edge(1), Err(NetworkError::UnknownEdge { edge: 1 }));
    assert_eq!(network.get_edge_parameters(0), Ok(&7));
    assert_eq!(network.get_edge_parameters(1), Err(NetworkError::UnknownEdge { edge: 1 }));
    assert_eq!(network.edge_parameters(), &[7]);
    assert!(pressure(0).is_pressure());
    assert!(!demand(0).is_pressure());
}

#[test]
fn other_node_of_edge() {
    let edge = Edge { src: 3, tgt: 5 };
    assert_eq!(edge.get_other_node(3), Ok(5));
    assert_eq!(edge.get_other_node(5), Ok(3));
    assert_eq!(edge.get_other_node(4), Err(NetworkError::NotIncident { node: 4 }));
}

#[test]
fn try_from_topology_requires_one_parameter_per_edge() {
    let result = Network::try_from_topology(vec![pressure(0), zero(1)], edges_from_pairs(&[(0, 1)]), vec![(), ()]);
    assert_eq!(result, Err(NetworkError::ParameterCount { edges: 1, parameters: 2 }));
}

#[test]
fn nodes_and_positions_in_network_order() {
    let nodes: Vec<Node<i32, (u8, u8)>> = vec![
        Node::Pressure { name: String::from("S"), pressure: 1, temperature: 2, position: (0, 0) },
        Node::Zero { name: String::from("J"), position: (1, 2) },
    ];
    let network = Network::try_from_feed(nodes, edges_from_pairs(&[(0, 1)]), vec![()]).expect("network");
    let positions: Vec<(u8, u8)> = network.nodes().iter().map(|node| *node.get_position()).collect();
    assert_eq!(positions, vec![(1, 2), (0, 0)]);
}

#[test]
fn tree_edges_join_each_node_to_its_predecessor() {
    let nodes = vec![pressure(0), zero(1), zero(2), zero(3), zero(4)];
    let edges = edges_from_pairs(&[(0, 1), (0, 2), (1, 2), (1, 3), (2, 3), (3, 4)]);
    let parameters: Vec<()> = edges.iter().map(|_| ()).collect();
    let network = Network::try_from_feed(nodes, edges, parameters).expect("network");
    let n = network.num_nodes();
    for v in 0..n {
        let mut c = v;
        let mut steps = 0;
        while c != network.root_node_index {
            c = network.pred_nodes[&c];
            steps += 1;
        }
        assert!(steps < n);
        if v != network.root_node_index {
            let p = network.pred_nodes[&v];
            assert!(network
                .spanning_tree_edges
                .iter()
                .any(|e| (e.src == p && e.tgt == v) || (e.src == v && e.tgt == p)));
        }
    }
    assert_eq!(network.pred_nodes.len() + 1, n);
}

#[test]
fn upstream_neighbours_follow_flow_direction() {
    let network = Network::try_from_feed(
        vec![pressure(0), zero(1), zero(2)],
        edges_from_pairs(&[(0, 1), (1, 2)]),
        vec![(), ()],
    )
    .expect("network");
    // nodes become N1, N2, N0: edges (2, 0) and (0, 1)
    let forward = vec![false, false];
    assert_eq!(network.upstream_neighbours(1, &forward), Ok(vec![(1, 0)]));
    assert_eq!(network.upstream_neighbours(0, &forward), Ok(vec![(0, 2)]));
    let second_reversed = vec![false, true];
    assert_eq!(network.upstream_neighbours(0, &second_reversed), Ok(vec![(0, 2), (1, 1)]));
    assert_eq!(network.upstream_neighbours(1, &second_reversed), Ok(vec![]));
    assert_eq!(network.upstream_neighbours(7, &forward), Err(NetworkError::UnknownNode { node: 7 }));
    assert_eq!(network.upstream_neighbours(0, &vec![false]), Err(NetworkError::UnknownEdge { edge: 1 }));
}

#[test]
fn count_visit_stops_after_the_limit() {
    let mut counter = vec![0, 4];
    assert_eq!(count_visit(&mut counter, 0, 3), Ok(()));
    assert_eq!(counter, vec![1, 4]);
    assert_eq!(count_visit(&mut counter, 1, 3), Err(NetworkError::RevisitLimit { node: 1, limit: 3 }));
    assert_eq!(count_visit(&mut counter, 2, 3), Err(NetworkError::UnknownNode { node: 2 }));
    assert_eq!(counter, vec![1, 4]);
}
