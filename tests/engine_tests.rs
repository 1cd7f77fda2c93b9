use circuit_core::block::{Block, BlockContext, BlockMetadata, PortDefinition};
use circuit_core::engine::Engine;
use circuit_core::error::CircuitError;
use circuit_core::graph::{Connection, Graph, Node};
use circuit_core::blocks::basic;
use circuit_core::blocks::logic::NotBlock;
use circuit_core::value::{Value, ValueMap};
use std::sync::Arc;

fn float(x: f64) -> Value {
    Value::Float(x.to_bits())
}

fn float_of(v: &Value) -> Option<f64> {
    match v {
        Value::Float(bits) => Some(f64::from_bits(*bits)),
        Value::Int(i) => Some(*i as f64),
        _ => None,
    }
}

struct AddBlock;

impl Block for AddBlock {
    fn metadata(&self) -> BlockMetadata {
        BlockMetadata {
            id: "add".to_string(),
            name: "Add".to_string(),
            description: "Adds two numbers".to_string(),
            inputs: vec![
                PortDefinition { id: "a".to_string(), name: "A".to_string(), data_type: "number".to_string(), required: true },
                PortDefinition { id: "b".to_string(), name: "B".to_string(), data_type: "number".to_string(), required: true },
            ],
            outputs: vec![PortDefinition { id: "result".to_string(), name: "Result".to_string(), data_type: "number".to_string(), required: true }],
            config_schema: vec![],
        }
    }

    fn execute(&self, context: BlockContext) -> Result<ValueMap, CircuitError> {
        let a = context.get_input("a").and_then(float_of).ok_or_else(|| CircuitError::InvalidInput("Missing input 'a'".to_string()))?;
        let b = context.get_input("b").and_then(float_of).ok_or_else(|| CircuitError::InvalidInput("Missing input 'b'".to_string()))?;
        let mut outputs = ValueMap::new();
        outputs.insert("result".to_string(), Value::Float((a + b).to_bits()));
        Ok(outputs)
    }
}

struct ConstantBlock;

impl Block for ConstantBlock {
    fn metadata(&self) -> BlockMetadata {
        BlockMetadata {
            id: "constant".to_string(),
            name: "Constant".to_string(),
            description: "Outputs a constant value".to_string(),
            inputs: vec![],
            outputs: vec![PortDefinition { id: "value".to_string(), name: "Value".to_string(), data_type: "number".to_string(), required: true }],
            config_schema: vec![],
        }
    }

    fn execute(&self, context: BlockContext) -> Result<ValueMap, CircuitError> {
        let value = context.get_config("value").ok_or_else(|| CircuitError::InvalidInput("Missing config 'value'".to_string()))?.clone();
        let mut outputs = ValueMap::new();
        outputs.insert("value".to_string(), value);
        Ok(outputs)
    }
}

fn node(id: &str, block_type: &str, config: ValueMap) -> Node {
    Node { id: id.to_string(), block_type: block_type.to_string(), config, position: None }
}

fn conn(from: &str, from_port: &str, to: &str, to_port: &str) -> Connection {
    Connection { from_node: from.to_string(), from_port: from_port.to_string(), to_node: to.to_string(), to_port: to_port.to_string() }
}

#[test]
fn test_engine_registration() {
    let mut engine: Engine<Arc<dyn Block>> = Engine::new();
    engine.register_block(Arc::new(AddBlock)).unwrap();
    assert_eq!(engine.list_blocks().len(), 1);
}

#[test]
fn test_simple_execution() {
    let mut engine: Engine<Arc<dyn Block>> = Engine::new();
    engine.register_block(Arc::new(ConstantBlock)).unwrap();
    engine.register_block(Arc::new(AddBlock)).unwrap();
    let mut graph = Graph::new("test".to_string(), "Test Graph".to_string());
    let mut config1 = ValueMap::new();
    config1.insert("value".to_string(), Value::Float(5.0f64.to_bits()));
    let mut config2 = ValueMap::new();
    config2.insert("value".to_string(), Value::Float(3.0f64.to_bits()));
    graph.add_node(node("const1", "constant", config1)).unwrap();
    graph.add_node(node("const2", "constant", config2)).unwrap();
    graph.add_node(node("add", "add", ValueMap::new())).unwrap();
    graph.add_connection(conn("const1", "value", "add", "a")).unwrap();
    graph.add_connection(conn("const2", "value", "add", "b")).unwrap();
    engine.load_graph(graph).unwrap();
    let results = engine.execute_graph("test").unwrap();
    let add_output = results.get("add").unwrap();
    let result = add_output.get("result").unwrap();
    assert_eq!(float_of(result), Some(8.0));
}

struct DivideBlock;

impl Block for DivideBlock {
    fn metadata(&self) -> BlockMetadata {
        BlockMetadata {
            id: "divide".to_string(),
            name: "Divide".to_string(),
            description: "Divides a by b".to_string(),
            inputs: vec![],
            outputs: vec![],
            config_schema: vec![],
        }
    }

    fn execute(&self, context: BlockContext) -> Result<ValueMap, CircuitError> {
        let a = context.get_input("a").and_then(float_of).ok_or_else(|| CircuitError::InvalidInput("Missing input 'a'".to_string()))?;
        let b = context.get_input("b").and_then(float_of).ok_or_else(|| CircuitError::InvalidInput("Missing input 'b'".to_string()))?;
        if b == 0.0 {
            return Err(CircuitError::BlockExecution("Division by zero".to_string()));
        }
        let mut outputs = ValueMap::new();
        outputs.insert("result".to_string(), float(a / b));
        Ok(outputs)
    }
}

fn engine_with_blocks() -> Engine<Arc<dyn Block>> {
    let mut engine: Engine<Arc<dyn Block>> = Engine::new();
    engine.register_block(Arc::new(basic::ConstantBlock)).unwrap();
    engine.register_block(Arc::new(AddBlock)).unwrap();
    engine.register_block(Arc::new(DivideBlock)).unwrap();
    engine
}

fn constant(id: &str, x: f64) -> Node {
    let mut config = ValueMap::new();
    config.insert("value".to_string(), float(x));
    node(id, "core.constant", config)
}

#[test]
fn test_basic_workflow() {
    let engine: Engine<Arc<dyn Block>> = Engine::new();
    assert!(engine.list_graphs().is_empty());
}

#[test]
fn simple_addition_scenario() {
    let mut engine = engine_with_blocks();
    let mut graph = Graph::new("sum".to_string(), "Sum".to_string());
    graph.add_node(constant("c5", 5.0)).unwrap();
    graph.add_node(constant("c3", 3.0)).unwrap();
    graph.add_node(node("add", "add", ValueMap::new())).unwrap();
    graph.add_connection(conn("c5", "value", "add", "a")).unwrap();
    graph.add_connection(conn("c3", "value", "add", "b")).unwrap();
    let results = engine.execute(&graph).unwrap();
    assert_eq!(results.get("add").unwrap().get("result"), Some(&float(8.0)));
    assert_eq!(results.len(), 3);
    engine.load_graph(graph).unwrap();
    let loaded = engine.execute_graph("sum").unwrap();
    assert_eq!(loaded.get("add").unwrap().get("result"), Some(&float(8.0)));
}

fn chain(n: usize) -> Graph {
    let mut graph = Graph::new("chain".to_string(), "Chain".to_string());
    graph.add_node(constant("start", 1.0)).unwrap();
    graph.add_node(constant("one", 1.0)).unwrap();
    let mut previous = "start".to_string();
    let mut previous_port = "value";
    for i in 0..n {
        let id = format!("add{}", i);
        graph.add_node(node(&id, "add", ValueMap::new())).unwrap();
        graph.add_connection(conn(&previous, previous_port, &id, "a")).unwrap();
        graph.add_connection(conn("one", "value", &id, "b")).unwrap();
        previous = id;
        previous_port = "result";
    }
    graph
}

#[test]
fn chained_computation_scenario() {
    let engine = engine_with_blocks();
    for n in [1usize, 10, 100] {
        let results = engine.execute(&chain(n)).unwrap();
        let last = format!("add{}", n - 1);
        assert_eq!(results.get(&last).unwrap().get("result"), Some(&float((n + 1) as f64)));
    }
}

#[test]
fn failure_isolation_scenario() {
    let mut engine = engine_with_blocks();
    let mut graph = Graph::new("div".to_string(), "Div".to_string());
    graph.add_node(constant("ten", 10.0)).unwrap();
    graph.add_node(constant("zero", 0.0)).unwrap();
    graph.add_node(node("divide", "divide", ValueMap::new())).unwrap();
    graph.add_connection(conn("ten", "value", "divide", "a")).unwrap();
    graph.add_connection(conn("zero", "value", "divide", "b")).unwrap();
    engine.load_graph(graph).unwrap();
    match engine.execute_graph("div") {
        Err(CircuitError::NodeExecution { node_id, cause }) => {
            assert_eq!(node_id, "divide");
            assert!(matches!(*cause, CircuitError::BlockExecution(_)));
        },
        other => panic!("unexpected {:?}", other),
    }
}

#[test]
fn load_is_all_or_nothing() {
    let mut engine = engine_with_blocks();
    let mut graph = Graph::new("bad".to_string(), "Bad".to_string());
    graph.add_node(constant("c", 1.0)).unwrap();
    graph.add_node(node("x", "unregistered", ValueMap::new())).unwrap();
    match engine.load_graph(graph) {
        Err(CircuitError::UnknownBlockType(t)) => assert_eq!(t, "unregistered"),
        other => panic!("unexpected {:?}", other),
    }
    assert!(!engine.list_graphs().iter().any(|g| g == "bad"));
    assert!(engine.get_graph("bad").is_none());
}

#[test]
fn execution_is_deterministic() {
    let mut engine = engine_with_blocks();
    engine.load_graph(chain(5)).unwrap();
    let first = engine.execute_graph("chain").unwrap();
    let second = engine.execute_graph("chain").unwrap();
    assert_eq!(first.keys(), second.keys());
    for id in first.keys() {
        assert_eq!(first.get(&id), second.get(&id));
    }
}

#[test]
fn duplicate_block_type_is_refused() {
    let mut engine = engine_with_blocks();
    match engine.register_block(Arc::new(AddBlock)) {
        Err(CircuitError::DuplicateBlockType(t)) => assert_eq!(t, "add"),
        other => panic!("unexpected {:?}", other),
    }
    assert_eq!(engine.list_blocks(), vec!["core.constant", "add", "divide"]);
}

#[test]
fn missing_graph_is_reported() {
    let engine = engine_with_blocks();
    match engine.execute_graph("nope") {
        Err(CircuitError::GraphNotFound(id)) => assert_eq!(id, "nope"),
        other => panic!("unexpected {:?}", other),
    }
}

#[test]
fn reloading_replaces_graph() {
    let mut engine = engine_with_blocks();
    engine.load_graph(chain(1)).unwrap();
    engine.load_graph(chain(3)).unwrap();
    assert_eq!(engine.list_graphs(), vec!["chain"]);
    let results = engine.execute_graph("chain").unwrap();
    assert_eq!(results.get("add2").unwrap().get("result"), Some(&float(4.0)));
}

#[test]
fn unresolved_input_is_left_absent() {
    let engine = engine_with_blocks();
    let mut graph = Graph::new("g".to_string(), "G".to_string());
    graph.add_node(constant("c", 2.0)).unwrap();
    graph.add_node(node("add", "add", ValueMap::new())).unwrap();
    graph.add_connection(conn("c", "missing_port", "add", "a")).unwrap();
    graph.add_connection(conn("c", "value", "add", "b")).unwrap();
    match engine.execute(&graph) {
        Err(CircuitError::NodeExecution { node_id, cause }) => {
            assert_eq!(node_id, "add");
            match *cause {
                CircuitError::InvalidInput(m) => assert_eq!(m, "Missing input 'a'"),
                other => panic!("unexpected {:?}", other),
            }
        },
        other => panic!("unexpected {:?}", other),
    }
}

#[test]
fn unregistered_type_fails_direct_execution() {
    let engine = engine_with_blocks();
    let mut graph = Graph::new("g".to_string(), "G".to_string());
    graph.add_node(node("x", "mystery", ValueMap::new())).unwrap();
    match engine.execute(&graph) {
        Err(CircuitError::UnknownBlockType(t)) => assert_eq!(t, "mystery"),
        other => panic!("unexpected {:?}", other),
    }
}

#[test]
fn default_engine_is_empty() {
    let engine: Engine<Arc<dyn Block>> = Engine::default();
    assert!(engine.list_blocks().is_empty());
    assert!(engine.list_graphs().is_empty());
}

#[test]
fn failing_block_error_is_carried_unchanged() {
    let mut engine: Engine<Arc<dyn Block>> = Engine::new();
    engine.register_block(Arc::new(basic::ConstantBlock)).unwrap();
    engine.register_block(Arc::new(NotBlock)).unwrap();
    let mut graph = Graph::new("g".to_string(), "G".to_string());
    graph.add_node(constant("c", 1.0)).unwrap();
    graph.add_node(node("not", "logic.not", ValueMap::new())).unwrap();
    graph.add_connection(conn("c", "value", "not", "value")).unwrap();
    match engine.execute(&graph) {
        Err(CircuitError::NodeExecution { node_id, cause }) => {
            assert_eq!(node_id, "not");
            match *cause {
                CircuitError::InvalidInput(m) => assert_eq!(m, "Missing or invalid input 'value'"),
                other => panic!("unexpected {:?}", other),
            }
        },
        other => panic!("unexpected {:?}", other),
    }
}
