use object_tree::schematic::{
    add_connection, insert_keyed, ConnectionEdge, Connections, Edge, NodeWithPositions, Schematic,
    SchematicError, SchematicKind, SchematicNode, SchematicNodeSockets, Socket, SocketKind,
    SocketType, Vertex,
};

type Node = SchematicNode<NodeWithPositions<(i64, i64), u32>, String>;

fn connection(edge_id: &str, node_id: &str) -> ConnectionEdge {
    ConnectionEdge {
        edge_id: edge_id.to_string(),
        node_id: node_id.to_string(),
        socket_id: "output".to_string(),
    }
}

fn node(id: &str, predecessors: Vec<(&str, Vec<ConnectionEdge>)>, successors: Vec<(&str, Vec<ConnectionEdge>)>) -> (String, Node) {
    let with_keys = |groups: Vec<(&str, Vec<ConnectionEdge>)>| -> Vec<(String, Vec<ConnectionEdge>)> {
        groups.into_iter().map(|(k, v)| (k.to_string(), v)).collect()
    };
    (
        id.to_string(),
        SchematicNode {
            node: NodeWithPositions {
                id: id.to_string(),
                object_type: "service".to_string(),
                object_id: format!("entity:{}", id),
                positions: vec![("ctx".to_string(), (1, 2))],
                si_storable: 7,
            },
            sockets: SchematicNodeSockets {
                inputs: vec![Socket {
                    id: "input".to_string(),
                    socket_kind: SocketKind::Input,
                    socket_type: SocketType::Object,
                    object_type: None,
                }],
                outputs: vec![Socket {
                    id: "output".to_string(),
                    socket_kind: SocketKind::Output,
                    socket_type: SocketType::Object,
                    object_type: Some("service".to_string()),
                }],
            },
            object: format!("object of {}", id),
            connections: Connections {
                predecessors: with_keys(predecessors),
                successors: with_keys(successors),
            },
        },
    )
}

fn edge(id: &str, tail: &str, head: &str) -> (String, Edge) {
    let vertex = |node_id: &str| Vertex {
        node_id: node_id.to_string(),
        object_id: format!("entity:{}", node_id),
        socket: "output".to_string(),
    };
    (id.to_string(), Edge { id: id.to_string(), tail_vertex: vertex(tail), head_vertex: vertex(head) })
}

fn sample() -> Schematic<NodeWithPositions<(i64, i64), u32>, String> {
    Schematic {
        nodes: vec![
            node("root", vec![], vec![("deployment", vec![connection("e1", "a"), connection("e2", "b")])]),
            node(
                "a",
                vec![
                    ("deployment", vec![connection("e1", "root")]),
                    ("configures", vec![connection("e3", "b")]),
                ],
                vec![("empty", vec![])],
            ),
            node(
                "b",
                vec![("deployment", vec![connection("e2", "root"), connection("e4", "a")])],
                vec![("configures", vec![connection("e3", "a")])],
            ),
        ],
        edges: vec![
            edge("e1", "root", "a"),
            edge("e2", "root", "b"),
            edge("e3", "b", "a"),
            edge("e4", "a", "b"),
        ],
    }
}

#[test]
fn prune_node_removes_the_node_its_connections_and_its_edges() {
    let mut schematic = sample();
    schematic.prune_node("root");
    let keys: Vec<&str> = schematic.nodes.iter().map(|(k, _)| k.as_str()).collect();
    assert_eq!(keys, vec!["a", "b"]);
    let a = &schematic.nodes[0].1;
    assert_eq!(
        a.connections.predecessors,
        vec![("configures".to_string(), vec![connection("e3", "b")])]
    );
    assert_eq!(a.connections.successors, vec![]);
    let b = &schematic.nodes[1].1;
    assert_eq!(
        b.connections.predecessors,
        vec![("deployment".to_string(), vec![connection("e4", "a")])]
    );
    assert_eq!(
        b.connections.successors,
        vec![("configures".to_string(), vec![connection("e3", "a")])]
    );
    let edge_keys: Vec<&str> = schematic.edges.iter().map(|(k, _)| k.as_str()).collect();
    assert_eq!(edge_keys, vec!["e3", "e4"]);
    assert_eq!(a.node, sample().nodes[1].1.node);
    assert_eq!(a.sockets, sample().nodes[1].1.sockets);
    assert_eq!(a.object, "object of a");
}

#[test]
fn prune_node_of_an_unknown_id_drops_only_empty_groups() {
    let mut schematic = sample();
    schematic.prune_node("nobody");
    let mut expected = sample();
    expected.nodes[1].1.connections.successors.clear();
    assert_eq!(schematic, expected);
}

#[test]
fn prune_node_twice_changes_nothing_more() {
    let mut once = sample();
    once.prune_node("a");
    let mut twice = sample();
    twice.prune_node("a");
    twice.prune_node("a");
    assert_eq!(once, twice);
    let keys: Vec<&str> = once.nodes.iter().map(|(k, _)| k.as_str()).collect();
    assert_eq!(keys, vec!["root", "b"]);
    let edge_keys: Vec<&str> = once.edges.iter().map(|(k, _)| k.as_str()).collect();
    assert_eq!(edge_keys, vec!["e2"]);
}

#[test]
fn prune_node_of_an_empty_schematic() {
    let mut schematic: Schematic<u8, u8> = Schematic { nodes: vec![], edges: vec![] };
    schematic.prune_node("root");
    assert!(schematic.nodes.is_empty());
    assert!(schematic.edges.is_empty());
}

#[test]
fn schematic_kinds_are_told_apart() {
    assert_eq!(SchematicKind::Deployment, SchematicKind::Deployment);
    assert_ne!(SchematicKind::Deployment, SchematicKind::Component);
    assert_ne!(SchematicKind::System, SchematicKind::Implementation);
}

#[test]
fn add_connection_fills_the_group_of_its_kind() {
    let mut groups: Vec<(String, Vec<ConnectionEdge>)> = vec![];
    add_connection(&mut groups, "configures", connection("e1", "a"));
    add_connection(&mut groups, "deployment", connection("e2", "b"));
    add_connection(&mut groups, "configures", connection("e3", "c"));
    assert_eq!(
        groups,
        vec![
            ("configures".to_string(), vec![connection("e1", "a"), connection("e3", "c")]),
            ("deployment".to_string(), vec![connection("e2", "b")]),
        ]
    );
}

fn bare() -> Schematic<NodeWithPositions<(i64, i64), u32>, String> {
    Schematic {
        nodes: vec![node("root", vec![], vec![]), node("a", vec![], vec![]), node("b", vec![], vec![])],
        edges: vec![],
    }
}

#[test]
fn record_edge_connects_the_successor_and_the_head() {
    let mut schematic = bare();
    // An edge from root to b, found for the node a
    let (_, e) = edge("e1", "root", "b");
    assert_eq!(schematic.record_edge(e.clone(), "configures", "a"), Ok(()));
    assert_eq!(schematic.edges, vec![("e1".to_string(), e)]);
    assert_eq!(
        schematic.nodes[1].1.connections.predecessors,
        vec![("configures".to_string(), vec![connection("e1", "root")])]
    );
    assert_eq!(schematic.nodes[1].1.connections.successors, vec![]);
    assert_eq!(
        schematic.nodes[2].1.connections.successors,
        vec![("configures".to_string(), vec![connection("e1", "b")])]
    );
    assert_eq!(schematic.nodes[0].1.connections, bare().nodes[0].1.connections);
}

#[test]
fn record_edge_whose_head_is_the_successor_adds_no_successor() {
    let mut schematic = bare();
    let (_, e) = edge("e1", "root", "a");
    assert_eq!(schematic.record_edge(e, "deployment", "a"), Ok(()));
    assert_eq!(
        schematic.nodes[1].1.connections.predecessors,
        vec![("deployment".to_string(), vec![connection("e1", "root")])]
    );
    assert_eq!(schematic.nodes[1].1.connections.successors, vec![]);
    assert_eq!(schematic.nodes[0].1.connections.successors, vec![]);
}

#[test]
fn record_edge_with_unknown_head_connects_only_the_successor() {
    let mut schematic = bare();
    let (_, e) = edge("e1", "root", "elsewhere");
    assert_eq!(schematic.record_edge(e, "deployment", "b"), Ok(()));
    assert_eq!(
        schematic.nodes[2].1.connections.predecessors,
        vec![("deployment".to_string(), vec![connection("e1", "root")])]
    );
    assert_eq!(schematic.nodes.len(), 3);
}

#[test]
fn record_edge_for_a_missing_node_is_refused() {
    let mut schematic = bare();
    let (_, e) = edge("e1", "root", "a");
    assert_eq!(
        schematic.record_edge(e.clone(), "deployment", "nobody"),
        Err(SchematicError::MissingNode)
    );
    assert_eq!(schematic.nodes, bare().nodes);
    assert_eq!(schematic.edges, vec![("e1".to_string(), e)]);
}

#[test]
fn record_edge_replaces_the_edge_of_its_id() {
    let mut schematic = bare();
    let (_, first) = edge("e1", "root", "a");
    let (_, second) = edge("e1", "root", "b");
    let (_, third) = edge("e2", "a", "b");
    schematic.record_edge(first, "deployment", "a").unwrap();
    schematic.record_edge(third.clone(), "deployment", "b").unwrap();
    schematic.record_edge(second.clone(), "deployment", "b").unwrap();
    assert_eq!(schematic.edges, vec![("e1".to_string(), second), ("e2".to_string(), third)]);
    assert_eq!(
        schematic.nodes[2].1.connections.predecessors,
        vec![(
            "deployment".to_string(),
            vec![connection("e2", "a"), connection("e1", "root")]
        )]
    );
}

#[test]
fn insert_keyed_replaces_the_value_of_a_key() {
    let mut map: Vec<(String, u32)> = vec![];
    insert_keyed(&mut map, "a".to_string(), 1);
    insert_keyed(&mut map, "b".to_string(), 2);
    insert_keyed(&mut map, "a".to_string(), 3);
    assert_eq!(map, vec![("a".to_string(), 3), ("b".to_string(), 2)]);
}

#[test]
fn has_node_tells_the_nodes_of_the_schematic() {
    let schematic = bare();
    assert!(schematic.has_node("root"));
    assert!(schematic.has_node("b"));
    assert!(!schematic.has_node("c"));
    assert!(!schematic.has_node(""));
}
