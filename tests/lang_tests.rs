use circuit_core::lang::{connection_def_to_connection, ConnectionDef, PortRef, ValueType};

#[test]
fn connection_definition_becomes_connection() {
    let def = ConnectionDef {
        from: PortRef { node: "n1".to_string(), port: "value".to_string() },
        to: PortRef { node: "add".to_string(), port: "a".to_string() },
    };
    let c = connection_def_to_connection(&def);
    assert_eq!(c.from_node, "n1");
    assert_eq!(c.from_port, "value");
    assert_eq!(c.to_node, "add");
    assert_eq!(c.to_port, "a");
}

#[test]
fn port_reference_text() {
    let r = PortRef { node: "add".to_string(), port: "result".to_string() };
    assert_eq!(r.to_text(), "add.result");
}

#[test]
fn value_type_names() {
    assert_eq!(ValueType::Number.name(), "Number");
    assert_eq!(ValueType::Any.name(), "Any");
    assert_eq!(ValueType::Bytes.name(), "Bytes");
}

use circuit_core::lang::{flow_to_graph, literal_to_value, FlowDef, LangError, NodeDef, Value as Literal};
use circuit_core::value::Value;
use circuit_core::error::CircuitError;

fn node_def(id: &str, block_type: &str, config: Vec<(String, Literal)>, position: Option<(f64, f64)>) -> NodeDef {
    NodeDef {
        id: id.to_string(),
        block_type: block_type.to_string(),
        config,
        position: position.map(|(x, y)| (x.to_bits(), y.to_bits())),
    }
}

fn connection_def(from: &str, from_port: &str, to: &str, to_port: &str) -> ConnectionDef {
    ConnectionDef {
        from: PortRef { node: from.to_string(), port: from_port.to_string() },
        to: PortRef { node: to.to_string(), port: to_port.to_string() },
    }
}

fn number(x: f64) -> Literal {
    Literal::Number(x.to_bits())
}

#[test]
fn test_convert_simple_flow() {
    let flow = FlowDef {
        name: "test".to_string(),
        description: Some("Test flow".to_string()),
        nodes: vec![
            node_def("n1", "core.constant", vec![("value".to_string(), number(42.0))], None),
            node_def("n2", "core.constant", vec![("value".to_string(), number(10.0))], None),
            node_def("add", "math.add", vec![], None),
        ],
        connections: vec![connection_def("n1", "value", "add", "a"), connection_def("n2", "value", "add", "b")],
        outputs: vec![],
    };
    let graph = flow_to_graph(&flow).expect("Failed to convert");
    assert_eq!(graph.nodes().len(), 3);
    assert_eq!(graph.connections().len(), 2);
    assert_eq!(graph.id(), "test");
    assert_eq!(graph.name(), "Test flow");
}

#[test]
fn test_convert_with_positions() {
    let flow = FlowDef {
        name: "positioned".to_string(),
        description: None,
        nodes: vec![node_def("n1", "test.block", vec![], Some((100.0, 200.0)))],
        connections: vec![],
        outputs: vec![],
    };
    let graph = flow_to_graph(&flow).expect("Failed to convert");
    assert_eq!(graph.name(), "");
    assert!(graph.description().is_none());
    let node = graph.get_node("n1").expect("Node not found");
    assert_eq!(node.position, Some((100.0f64.to_bits(), 200.0f64.to_bits())));
}

#[test]
fn test_convert_complex_values() {
    let flow = FlowDef {
        name: "values".to_string(),
        description: None,
        nodes: vec![node_def(
            "n1",
            "test.block",
            vec![
                ("num".to_string(), number(42.5)),
                ("str".to_string(), Literal::String("hello".to_string())),
                ("bool".to_string(), Literal::Bool(true)),
                ("arr".to_string(), Literal::Array(vec![number(1.0), number(2.0), number(3.0)])),
                ("obj".to_string(), Literal::Object(vec![("key".to_string(), Literal::String("value".to_string()))])),
            ],
            None,
        )],
        connections: vec![],
        outputs: vec![],
    };
    let graph = flow_to_graph(&flow).expect("Failed to convert");
    let node = graph.get_node("n1").expect("Node not found");
    assert_eq!(node.config.get("num"), Some(&Value::Float(42.5f64.to_bits())));
    assert_eq!(node.config.get("str"), Some(&Value::String("hello".to_string())));
    assert_eq!(node.config.get("bool"), Some(&Value::Bool(true)));
    assert_eq!(node.config.get("arr").and_then(|v| v.as_array()).map(|a| a.len()), Some(3));
}

#[test]
fn flow_with_cycle_is_refused() {
    let flow = FlowDef {
        name: "loop".to_string(),
        description: None,
        nodes: vec![node_def("a", "t", vec![], None), node_def("b", "t", vec![], None)],
        connections: vec![connection_def("a", "o", "b", "i"), connection_def("b", "o", "a", "i")],
        outputs: vec![],
    };
    assert!(matches!(flow_to_graph(&flow), Err(LangError::ValidationError(CircuitError::CycleDetected))));
}

#[test]
fn flow_with_repeated_node_is_refused() {
    let flow = FlowDef {
        name: "dup".to_string(),
        description: None,
        nodes: vec![node_def("a", "t", vec![], None), node_def("a", "t", vec![], None)],
        connections: vec![],
        outputs: vec![],
    };
    assert!(matches!(flow_to_graph(&flow), Err(LangError::ValidationError(CircuitError::DuplicateNode(_)))));
}

#[test]
fn literal_object_later_entry_wins() {
    let literal = Literal::Object(vec![
        ("k".to_string(), number(1.0)),
        ("k".to_string(), Literal::Null),
    ]);
    let v = literal_to_value(&literal);
    let m = v.as_object().unwrap();
    assert_eq!(m.len(), 1);
    assert_eq!(m.get("k"), Some(&Value::Null));
}
