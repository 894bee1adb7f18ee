use rimulation::formats::{
    mapped_name, node_mapping, node_role, resolve_pipes, Consumer, EmptyPipeParameters, FormatError,
    Input, NamedComponent, NodeRole, Pipe, Source,
};
use rimulation::graph::Edge;
use rimulation::network::Node;

fn pipes_of(pairs: &[(usize, usize)]) -> Vec<Pipe> {
    pairs
        .iter()
        .enumerate()
        .map(|(i, (src, tgt))| Pipe { name: format!("pipe{}", i), src: format!("N{}", src), tgt: format!("N{}", tgt) })
        .collect()
}

fn names(n: usize) -> Vec<String> {
    (0..n).map(|i| format!("N{}", i)).collect()
}

fn check_extract_edges() {
    let edge_tuples = [(0, 1), (1, 2), (2, 3), (2, 4), (3, 4)];
    let edges = resolve_pipes(&names(10), &pipes_of(&edge_tuples)).expect("could not extract edges from cutsom net");
    assert_eq!(edges, edge_tuples.map(|(src, tgt)| Edge { src, tgt }).to_vec());
}

#[test]
fn test_extract_edges_of_custom_net() {
    check_extract_edges();
}

#[test]
fn test_extract_edges() {
    check_extract_edges();
}

#[test]
fn resolve_pipes_reports_unknown_node() {
    let result = resolve_pipes(&names(3), &pipes_of(&[(0, 1), (1, 7)]));
    assert_eq!(result, Err(FormatError::UnknownNode { name: String::from("N7") }));
}

#[test]
fn resolve_pipes_takes_last_node_of_a_name() {
    let node_names = vec![String::from("A"), String::from("B"), String::from("A")];
    let pipes = vec![Pipe { name: String::from("P"), src: String::from("A"), tgt: String::from("B") }];
    assert_eq!(resolve_pipes(&node_names, &pipes), Ok(vec![Edge { src: 2, tgt: 1 }]));
}

fn consumers() -> Vec<Consumer> {
    vec![
        Consumer { name: String::from("C0"), src: String::from("N3"), tgt: String::from("N13") },
        Consumer { name: String::from("C1"), src: String::from("N4"), tgt: String::from("N14") },
    ]
}

fn sources() -> Vec<Source> {
    vec![Source { name: String::from("S0"), src: String::from("N10"), tgt: String::from("N0") }]
}

#[test]
fn node_mapping_pairs_node_names_with_component_names() {
    let consumers_by_node = node_mapping(&consumers(), |consumer: &Consumer| consumer.src.clone());
    assert_eq!(
        consumers_by_node,
        vec![(String::from("N3"), String::from("C0")), (String::from("N4"), String::from("C1"))]
    );
    let sources_by_node = node_mapping(&sources(), |source: &Source| source.tgt.clone());
    assert_eq!(sources_by_node, vec![(String::from("N0"), String::from("S0"))]);
}

#[test]
fn mapped_name_prefers_last_pair() {
    let mapping = vec![
        (String::from("N1"), String::from("first")),
        (String::from("N2"), String::from("other")),
        (String::from("N1"), String::from("second")),
    ];
    assert_eq!(mapped_name(&mapping, &String::from("N1")), Some(String::from("second")));
    assert_eq!(mapped_name(&mapping, &String::from("N3")), None);
}

#[test]
fn node_roles_of_custom_net() {
    let consumers_by_node = node_mapping(&consumers(), |consumer: &Consumer| consumer.src.clone());
    let sources_by_node = node_mapping(&sources(), |source: &Source| source.tgt.clone());
    let roles: Vec<NodeRole> =
        names(5).iter().map(|name| node_role(name, &consumers_by_node, &sources_by_node)).collect();
    assert_eq!(
        roles,
        vec![
            NodeRole::Source(String::from("S0")),
            NodeRole::Junction,
            NodeRole::Junction,
            NodeRole::Consumer(String::from("C0")),
            NodeRole::Consumer(String::from("C1")),
        ]
    );
    let both = vec![(String::from("N0"), String::from("C9"))];
    assert_eq!(node_role(&String::from("N0"), &both, &sources_by_node), NodeRole::Consumer(String::from("C9")));
}

#[test]
fn inputs_give_their_signal_names() {
    let consumer = Input::Consumer { demand: String::from("d"), return_temperature: String::from("r") };
    let source = Input::Source {
        base_pressure: String::from("b"),
        pressure_lift: String::from("p"),
        temperature: String::from("t"),
    };
    let name = String::from("in");
    assert_eq!(consumer.consumer_demand(&name), Ok(String::from("d")));
    assert_eq!(source.consumer_demand(&name), Err(FormatError::WrongInputKind { name: name.clone() }));
    assert_eq!(source.source_signals(&name), Ok((String::from("p"), String::from("t"))));
    assert_eq!(consumer.source_signals(&name), Err(FormatError::WrongInputKind { name: name.clone() }));
}

#[test]
fn components_report_their_names() {
    assert_eq!(consumers()[1].get_name(), "C1");
    assert_eq!(sources()[0].get_name(), "S0");
    assert_eq!(pipes_of(&[(0, 1)])[0].get_name(), "pipe0");
    let node: Node<i32, ()> = Node::Demand { name: String::from("N7"), demand: 1, position: () };
    assert_eq!(node.get_name(), "N7");
    assert_eq!(EmptyPipeParameters {}, EmptyPipeParameters {});
}
