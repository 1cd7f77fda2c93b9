use circuit_core::error::CircuitError;
use circuit_core::graph::{Connection, Graph, Node};
use circuit_core::value::ValueMap;

fn node(id: &str) -> Node {
    Node { id: id.to_string(), block_type: "test".to_string(), config: ValueMap::new(), position: None }
}

fn conn(from: &str, to: &str) -> Connection {
    Connection {
        from_node: from.to_string(),
        from_port: "out".to_string(),
        to_node: to.to_string(),
        to_port: "in".to_string(),
    }
}

fn position(order: &[String], id: &str) -> usize {
    order.iter().position(|n| n == id).unwrap()
}

#[test]
fn test_graph_creation() {
    let graph = Graph::new("test-graph".to_string(), "Test Graph".to_string());
    assert_eq!(graph.id(), "test-graph");
    assert_eq!(graph.name(), "Test Graph");
    assert!(graph.nodes().is_empty());
}

#[test]
fn test_add_node() {
    let mut graph = Graph::new("test".to_string(), "Test".to_string());
    graph.add_node(node("node1")).unwrap();
    assert_eq!(graph.nodes().len(), 1);
}

#[test]
fn test_add_connection() {
    let mut graph = Graph::new("test".to_string(), "Test".to_string());
    graph.add_node(node("node1")).unwrap();
    graph.add_node(node("node2")).unwrap();
    graph.add_connection(conn("node1", "node2")).unwrap();
    assert_eq!(graph.connections().len(), 1);
}

#[test]
fn test_cycle_detection() {
    let mut graph = Graph::new("test".to_string(), "Test".to_string());
    graph.add_node(node("node1")).unwrap();
    graph.add_node(node("node2")).unwrap();
    graph.add_connection(conn("node1", "node2")).unwrap();
    let result = graph.add_connection(conn("node2", "node1"));
    assert!(result.is_err());
}

#[test]
fn test_topological_sort() {
    let mut graph = Graph::new("test".to_string(), "Test".to_string());
    for i in 1..=3 {
        graph.add_node(node(&format!("node{}", i))).unwrap();
    }
    graph.add_connection(conn("node1", "node2")).unwrap();
    graph.add_connection(conn("node2", "node3")).unwrap();
    let order = graph.topological_sort().unwrap();
    assert_eq!(order.len(), 3);
    let node1_pos = position(&order, "node1");
    let node2_pos = position(&order, "node2");
    assert!(node1_pos < node2_pos);
    let node3_pos = position(&order, "node3");
    assert!(node2_pos < node3_pos);
}

#[test]
fn duplicate_node_is_refused() {
    let mut graph = Graph::new("g".to_string(), "G".to_string());
    graph.add_node(node("a")).unwrap();
    match graph.add_node(node("a")) {
        Err(CircuitError::DuplicateNode(id)) => assert_eq!(id, "a"),
        other => panic!("unexpected {:?}", other),
    }
    assert_eq!(graph.nodes().len(), 1);
}

#[test]
fn connection_to_missing_node_is_refused() {
    let mut graph = Graph::new("g".to_string(), "G".to_string());
    graph.add_node(node("a")).unwrap();
    match graph.add_connection(conn("a", "ghost")) {
        Err(CircuitError::NodeNotFound(id)) => assert_eq!(id, "ghost"),
        other => panic!("unexpected {:?}", other),
    }
    match graph.add_connection(conn("ghost", "a")) {
        Err(CircuitError::NodeNotFound(id)) => assert_eq!(id, "ghost"),
        other => panic!("unexpected {:?}", other),
    }
    assert!(graph.connections().is_empty());
}

#[test]
fn self_loop_is_a_cycle() {
    let mut graph = Graph::new("g".to_string(), "G".to_string());
    graph.add_node(node("a")).unwrap();
    assert!(matches!(graph.add_connection(conn("a", "a")), Err(CircuitError::CycleDetected)));
    assert!(graph.connections().is_empty());
}

#[test]
fn cycle_rejection_leaves_graph_sortable() {
    let mut graph = Graph::new("g".to_string(), "G".to_string());
    for id in ["a", "b", "c"] {
        graph.add_node(node(id)).unwrap();
    }
    graph.add_connection(conn("a", "b")).unwrap();
    graph.add_connection(conn("b", "c")).unwrap();
    let before = graph.connections().len();
    let result = graph.add_connection(conn("c", "a"));
    assert!(matches!(result, Err(CircuitError::CycleDetected)));
    assert_eq!(graph.connections().len(), before);
    let order = graph.topological_sort().unwrap();
    assert_eq!(order, vec!["a".to_string(), "b".to_string(), "c".to_string()]);
}

#[test]
fn sort_lists_every_node_once_with_edges_forward() {
    let mut graph = Graph::new("g".to_string(), "G".to_string());
    for id in ["sink", "left", "right", "source", "lone"] {
        graph.add_node(node(id)).unwrap();
    }
    graph.add_connection(conn("source", "left")).unwrap();
    graph.add_connection(conn("source", "right")).unwrap();
    graph.add_connection(conn("left", "sink")).unwrap();
    graph.add_connection(conn("right", "sink")).unwrap();
    let order = graph.topological_sort().unwrap();
    assert_eq!(order.len(), 5);
    for id in ["sink", "left", "right", "source", "lone"] {
        assert_eq!(order.iter().filter(|n| *n == id).count(), 1);
    }
    for c in graph.connections() {
        assert!(position(&order, &c.from_node) < position(&order, &c.to_node));
    }
    // among ready nodes, the one added first comes first
    assert_eq!(order, vec!["source", "left", "right", "sink", "lone"]);
}

#[test]
fn removal_cascades() {
    let mut graph = Graph::new("g".to_string(), "G".to_string());
    for id in ["up", "mid", "down1", "down2"] {
        graph.add_node(node(id)).unwrap();
    }
    graph.add_connection(conn("up", "mid")).unwrap();
    graph.add_connection(conn("mid", "down1")).unwrap();
    graph.add_connection(conn("mid", "down2")).unwrap();
    graph.add_connection(conn("down1", "down2")).unwrap();
    graph.remove_node("mid").unwrap();
    assert!(graph.connections().iter().all(|c| c.from_node != "mid" && c.to_node != "mid"));
    assert_eq!(graph.connections().len(), 1);
    assert!(graph.get_node("mid").is_none());
    let order = graph.topological_sort().unwrap();
    assert_eq!(order.len(), 3);
    assert!(!order.iter().any(|n| n == "mid"));
}

#[test]
fn removing_missing_node_fails() {
    let mut graph = Graph::new("g".to_string(), "G".to_string());
    graph.add_node(node("a")).unwrap();
    match graph.remove_node("b") {
        Err(CircuitError::NodeNotFound(id)) => assert_eq!(id, "b"),
        other => panic!("unexpected {:?}", other),
    }
    assert_eq!(graph.nodes().len(), 1);
}

#[test]
fn incoming_connections_in_order() {
    let mut graph = Graph::new("g".to_string(), "G".to_string());
    for id in ["a", "b", "c"] {
        graph.add_node(node(id)).unwrap();
    }
    graph.add_connection(conn("b", "c")).unwrap();
    graph.add_connection(conn("a", "b")).unwrap();
    graph.add_connection(conn("a", "c")).unwrap();
    let incoming = graph.get_incoming_connections("c");
    assert_eq!(incoming.len(), 2);
    assert_eq!(incoming[0].from_node, "b");
    assert_eq!(incoming[1].from_node, "a");
    assert!(graph.get_incoming_connections("a").is_empty());
}

#[test]
fn empty_graph_sorts_to_nothing() {
    let graph = Graph::new("g".to_string(), "G".to_string());
    assert!(graph.topological_sort().unwrap().is_empty());
}

#[test]
fn long_cycle_is_refused_and_parallel_edges_allowed() {
    let mut graph = Graph::new("g".to_string(), "G".to_string());
    for id in ["a", "b", "c", "d"] {
        graph.add_node(node(id)).unwrap();
    }
    graph.add_connection(conn("a", "b")).unwrap();
    graph.add_connection(conn("b", "c")).unwrap();
    graph.add_connection(conn("c", "d")).unwrap();
    graph.add_connection(conn("a", "d")).unwrap();
    graph.add_connection(conn("a", "b")).unwrap();
    assert!(matches!(graph.add_connection(conn("d", "a")), Err(CircuitError::CycleDetected)));
    assert!(matches!(graph.add_connection(conn("c", "b")), Err(CircuitError::CycleDetected)));
    assert_eq!(graph.connections().len(), 5);
    graph.remove_node("c").unwrap();
    graph.add_connection(conn("d", "b")).unwrap();
    let order = graph.topological_sort().unwrap();
    assert_eq!(order, vec!["a", "d", "b"]);
}
