use rimulation::matrices::{ac, ai, ar, arp, at, Matrices, MatrixError};
use rimulation::graph::Edge;
use rimulation::network::{Network, Node};

type TestNetwork = Network<i32, (), ()>;

fn zero(i: usize) -> Node<i32, ()> {
    Node::Zero { name: format!("N{}", i), position: () }
}

fn network_of(nodes: Vec<Node<i32, ()>>, pairs: &[(usize, usize)]) -> TestNetwork {
    let edges: Vec<Edge> = pairs.iter().map(|&(src, tgt)| Edge { src, tgt }).collect();
    let edge_parameters = edges.iter().map(|_| ()).collect();
    Network::try_from_feed(nodes, edges, edge_parameters).expect("could not compute network from feed nodes and edges")
}

fn create_test_net() -> TestNetwork {
    let mut nodes: Vec<Node<i32, ()>> = (0..4).map(zero).collect();
    nodes.push(Node::Pressure { name: String::from("N4"), pressure: 1, temperature: 1, position: () });
    network_of(nodes, &[(0, 4), (0, 1), (1, 2), (3, 2), (3, 4)])
}

fn ring_network() -> TestNetwork {
    network_of((0..5).map(zero).collect(), &[(1, 0), (1, 2), (2, 3), (4, 3), (4, 0)])
}

fn check_compute_ac() {
    let network = ring_network();
    let ac = ac(&network).expect("could not compute A_C matrix");
    assert_eq!(ac, vec![vec![-1, 1, -1, 1, 1]]);
}

#[test]
fn matrices_compute_ac() {
    check_compute_ac();
}

#[test]
fn hydraulic_compute_ac() {
    check_compute_ac();
}

#[test]
fn compute_ac_from_net() {
    check_compute_ac();
}

fn check_compute_ar() {
    let network = create_test_net();
    assert_eq!(
        ar(&network),
        vec![
            vec![-1, 0, 0, 0], // edge 0
            vec![-1, 1, 0, 0], // edge 1
            vec![0, 0, 1, -1], // edge 3
            vec![0, 0, 0, -1], // edge 4
            vec![0, -1, 1, 0], // edge 2
        ]
    );
}

#[test]
fn matrices_compute_ar() {
    check_compute_ar();
}

#[test]
fn hydraulic_compute_ar() {
    check_compute_ar();
}

fn check_compute_arp() {
    let network = create_test_net();
    assert_eq!(arp(&network), vec![vec![1], vec![0], vec![0], vec![1], vec![0]]);
}

#[test]
fn matrices_compute_arp() {
    check_compute_arp();
}

#[test]
fn hydraulic_compute_arp() {
    check_compute_arp();
}

fn check_compute_ai() {
    let network = create_test_net();
    assert_eq!(
        ai(&network),
        vec![
            vec![-1, 0, 0, 0, 1], // edge 0
            vec![-1, 1, 0, 0, 0], // edge 1
            vec![0, 0, 1, -1, 0], // edge 3
            vec![0, 0, 0, -1, 1], // edge 4
            vec![0, -1, 1, 0, 0], // edge 2
        ]
    );
}

#[test]
fn matrices_compute_ai() {
    check_compute_ai();
}

#[test]
fn hydraulic_compute_ai() {
    check_compute_ai();
}

fn check_compute_at() {
    let network = network_of((0..4).map(zero).collect(), &[(1, 0), (1, 2), (2, 3), (1, 3), (3, 0), (1, 2)]);
    assert_eq!(
        at(&network),
        vec![
            vec![1, 0, 0, 0, 0, 0],
            vec![0, 1, 0, 0, 0, 0],
            vec![0, 0, 1, 0, 0, 0],
            vec![0, 0, 0, 1, 0, 0],
        ]
    );
}

#[test]
fn matrices_compute_at() {
    check_compute_at();
}

#[test]
fn hydraulic_compute_at() {
    check_compute_at();
}

/// Sums `row[j] * incidence(edge j, v)` over the edges, for every node `v`.
fn loop_balance(network: &TestNetwork, row: &[i8]) -> Vec<i32> {
    let incidence = ai(network);
    (0..network.num_nodes())
        .map(|v| {
            (0..network.num_edges().min(row.len()))
                .map(|j| row[j] as i32 * incidence[j][v] as i32)
                .sum()
        })
        .collect()
}

#[test]
fn cycle_rows_balance_at_every_node() {
    let network = create_test_net();
    let ac = ac(&network).expect("cycle matrix");
    assert_eq!(ac, vec![vec![-1, 1, -1, 1, 1]]);
    assert_eq!(loop_balance(&network, &ac[0]), vec![0; 5]);

    let ring = ring_network();
    let ac = rimulation::matrices::ac(&ring).expect("cycle matrix");
    assert_eq!(loop_balance(&ring, &ac[0]), vec![0; 5]);
}

#[test]
fn cycle_matrix_needs_a_column_per_edge() {
    // four nodes, five edges: the second cycle edge has no column
    let network = network_of((0..4).map(zero).collect(), &[(0, 1), (1, 2), (2, 3), (3, 0), (0, 2)]);
    assert_eq!(network.num_cycles(), 2);
    assert_eq!(ac(&network), Err(MatrixError::IndexOutOfBounds { i: 1, j: 4 }));
    assert!(Matrices::try_from_network(&network).is_err());
}

#[test]
fn cycle_matrix_reports_missing_predecessor() {
    let mut network = ring_network();
    network.pred_nodes.clear();
    assert!(matches!(ac(&network), Err(MatrixError::MissingPredecessor(_))));
}

#[test]
fn all_matrices_assemble() {
    let network = create_test_net();
    let matrices = Matrices::try_from_network(&network).expect("matrices");
    assert_eq!(matrices.ar, ar(&network));
    assert_eq!(matrices.arp, arp(&network));
    assert_eq!(matrices.ai, ai(&network));
    assert_eq!(matrices.at, at(&network));
    assert_eq!(matrices.ac, vec![vec![-1, 1, -1, 1, 1]]);
}

#[test]
fn cycle_matrix_reports_missing_edge_and_endless_walk() {
    // the cycle edge of the ring is (2, 3); its walk starts at node 2
    let mut network = ring_network();
    network.pred_nodes.insert(2, 4);
    assert_eq!(ac(&network), Err(MatrixError::MissingEdge(4, 2)));

    let mut network = ring_network();
    network.pred_nodes.insert(2, 1);
    network.pred_nodes.insert(1, 2);
    assert_eq!(ac(&network), Err(MatrixError::UnterminatedWalk(2)));
}

#[test]
fn cycle_row_cancels_edges_shared_by_both_walks() {
    // root 0; the cycle edge (2, 3) closes the loop 1-2-3 away from the root
    let network = network_of((0..4).map(zero).collect(), &[(0, 1), (1, 2), (1, 3), (2, 3)]);
    assert_eq!(network.cycle_edges, vec![Edge { src: 2, tgt: 3 }]);
    let ac = ac(&network).expect("cycle matrix");
    assert_eq!(ac, vec![vec![0, 1, -1, 1]]);
    assert_eq!(loop_balance(&network, &ac[0]), vec![0; 4]);
}

#[test]
fn parallel_pipes_keep_their_loop() {
    // two pipes between node 0 (root) and node 1: the second closes a loop
    let network = network_of((0..2).map(zero).collect(), &[(0, 1), (0, 1)]);
    assert_eq!(network.spanning_tree_edges, vec![Edge { src: 0, tgt: 1 }]);
    assert_eq!(network.cycle_edges, vec![Edge { src: 0, tgt: 1 }]);
    let ac = ac(&network).expect("cycle matrix");
    assert_eq!(ac, vec![vec![-1, 1]]);
    assert_eq!(loop_balance(&network, &ac[0]), vec![0; 2]);
}
