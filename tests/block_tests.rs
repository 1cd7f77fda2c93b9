use circuit_core::block::{Block, BlockContext, BlockMetadata};
use circuit_core::blocks::basic::{ConstantBlock, DebugBlock};
use circuit_core::blocks::control::{GateBlock, IfBlock};
use circuit_core::blocks::logic::{AndBlock, EqualBlock, NotBlock, OrBlock};
use circuit_core::blocks::string::ConcatBlock;
use circuit_core::error::CircuitError;
use circuit_core::value::{Value, ValueMap};

fn float(x: f64) -> Value {
    Value::Float(x.to_bits())
}

struct TestBlock;

impl Block for TestBlock {
    fn metadata(&self) -> BlockMetadata {
        BlockMetadata {
            id: "test".to_string(),
            name: "Test Block".to_string(),
            description: "A test block".to_string(),
            inputs: vec![],
            outputs: vec![],
            config_schema: vec![],
        }
    }

    fn execute(&self, _context: BlockContext) -> Result<ValueMap, CircuitError> {
        let mut outputs = ValueMap::new();
        outputs.insert("result".to_string(), Value::Int(42));
        Ok(outputs)
    }
}

#[test]
fn test_block_execution() {
    let block = TestBlock;
    let context = BlockContext::new();
    let result = block.execute(context).unwrap();
    assert_eq!(result.get("result"), Some(&Value::Int(42)));
    assert!(block.validate(&ValueMap::new()).is_ok());
}

#[test]
fn blocks_test_constant_block() {
    let block = ConstantBlock;
    let mut context = BlockContext::new();
    context.config.insert("value".to_string(), Value::String("Hello".to_string()));
    let result = block.execute(context).unwrap();
    assert_eq!(result.get("value"), Some(&Value::String("Hello".to_string())));
}

#[test]
fn core_test_constant_block() {
    let block = ConstantBlock;
    let mut context = BlockContext::new();
    context.config.insert("value".to_string(), Value::String("Hello".to_string()));
    let result = block.execute(context).unwrap();
    assert_eq!(result.get("value"), Some(&Value::String("Hello".to_string())));
}

#[test]
fn constant_without_value_fails() {
    match ConstantBlock.execute(BlockContext::new()) {
        Err(CircuitError::InvalidInput(m)) => assert_eq!(m, "Missing config 'value'"),
        other => panic!("unexpected {:?}", other),
    }
    assert!(ConstantBlock.validate(&ValueMap::new()).is_ok());
}

#[test]
fn blocks_test_concat_block() {
    let block = ConcatBlock;
    let mut context = BlockContext::new();
    context.inputs.insert("a".to_string(), Value::String("Hello".to_string()));
    context.inputs.insert("b".to_string(), Value::String(" World".to_string()));
    let result = block.execute(context).unwrap();
    assert_eq!(result.get("result"), Some(&Value::String("Hello World".to_string())));
}

#[test]
fn string_test_concat_block() {
    let block = ConcatBlock;
    let mut context = BlockContext::new();
    context.inputs.insert("a".to_string(), Value::String("Hello".to_string()));
    context.inputs.insert("b".to_string(), Value::String(" World".to_string()));
    let result = block.execute(context).unwrap();
    assert_eq!(result.get("result"), Some(&Value::String("Hello World".to_string())));
}

#[test]
fn concat_rejects_non_strings() {
    let mut context = BlockContext::new();
    context.inputs.insert("a".to_string(), Value::String("x".to_string()));
    context.inputs.insert("b".to_string(), Value::Int(1));
    assert!(ConcatBlock.execute(context).is_err());
}

#[test]
fn debug_passes_value_on() {
    let mut context = BlockContext::new();
    context.inputs.insert("value".to_string(), Value::Int(7));
    let result = DebugBlock.execute(context).unwrap();
    assert_eq!(result.get("value"), Some(&Value::Int(7)));
    assert!(DebugBlock.execute(BlockContext::new()).is_err());
}

fn if_context(condition: Option<Value>, then_value: Option<Value>, else_value: Option<Value>) -> BlockContext {
    let mut context = BlockContext::new();
    if let Some(c) = condition {
        context.inputs.insert("condition".to_string(), c);
    }
    if let Some(t) = then_value {
        context.inputs.insert("then_value".to_string(), t);
    }
    if let Some(e) = else_value {
        context.inputs.insert("else_value".to_string(), e);
    }
    context
}

fn yes() -> Value {
    Value::String("yes".to_string())
}

fn no() -> Value {
    Value::String("no".to_string())
}

#[test]
fn test_if_condition_true() {
    let result = IfBlock.execute(if_context(Some(Value::Bool(true)), Some(yes()), Some(no()))).unwrap();
    assert_eq!(result.get("result"), Some(&Value::String("yes".to_string())));
}

#[test]
fn test_if_condition_false() {
    let result = IfBlock.execute(if_context(Some(Value::Bool(false)), Some(yes()), Some(no()))).unwrap();
    assert_eq!(result.get("result"), Some(&Value::String("no".to_string())));
}

#[test]
fn test_if_with_numeric_values() {
    let result = IfBlock.execute(if_context(Some(Value::Bool(true)), Some(float(42.0)), Some(float(0.0)))).unwrap();
    assert_eq!(result.get("result"), Some(&float(42.0)));
}

#[test]
fn test_if_missing_condition() {
    assert!(IfBlock.execute(if_context(None, Some(yes()), Some(no()))).is_err());
}

#[test]
fn test_if_missing_then_value() {
    assert!(IfBlock.execute(if_context(Some(Value::Bool(true)), None, Some(no()))).is_err());
}

#[test]
fn test_if_missing_else_value() {
    assert!(IfBlock.execute(if_context(Some(Value::Bool(false)), Some(yes()), None)).is_err());
}

#[test]
fn test_if_wrong_type_condition() {
    let condition = Value::String("not a bool".to_string());
    assert!(IfBlock.execute(if_context(Some(condition), Some(yes()), Some(no()))).is_err());
}

fn gate_context(value: Option<Value>, open: Option<Value>) -> BlockContext {
    let mut context = BlockContext::new();
    if let Some(v) = value {
        context.inputs.insert("value".to_string(), v);
    }
    if let Some(o) = open {
        context.inputs.insert("open".to_string(), o);
    }
    context
}

#[test]
fn test_gate_open() {
    let result = GateBlock.execute(gate_context(Some(Value::Int(42)), Some(Value::Bool(true)))).unwrap();
    assert_eq!(result.get("result"), Some(&Value::Int(42)));
}

#[test]
fn test_gate_closed() {
    let result = GateBlock.execute(gate_context(Some(Value::Int(42)), Some(Value::Bool(false)))).unwrap();
    assert_eq!(result.get("result"), Some(&Value::Null));
}

#[test]
fn test_gate_open_with_string() {
    let hello = Value::String("hello".to_string());
    let result = GateBlock.execute(gate_context(Some(hello), Some(Value::Bool(true)))).unwrap();
    assert_eq!(result.get("result"), Some(&Value::String("hello".to_string())));
}

#[test]
fn test_gate_missing_value() {
    assert!(GateBlock.execute(gate_context(None, Some(Value::Bool(true)))).is_err());
}

#[test]
fn test_gate_missing_open() {
    assert!(GateBlock.execute(gate_context(Some(Value::Int(42)), None)).is_err());
}

#[test]
fn test_gate_wrong_type_open() {
    assert!(GateBlock.execute(gate_context(Some(Value::Int(42)), Some(Value::Int(1)))).is_err());
}

#[test]
fn test_and_block() {
    let block = AndBlock;
    let mut context = BlockContext::new();
    context.inputs.insert("a".to_string(), Value::Bool(true));
    context.inputs.insert("b".to_string(), Value::Bool(true));
    let result = block.execute(context.clone()).unwrap();
    assert_eq!(result.get("result"), Some(&Value::Bool(true)));
    context.inputs.insert("b".to_string(), Value::Bool(false));
    let result = block.execute(context).unwrap();
    assert_eq!(result.get("result"), Some(&Value::Bool(false)));
}

#[test]
fn test_or_block() {
    let block = OrBlock;
    let mut context = BlockContext::new();
    context.inputs.insert("a".to_string(), Value::Bool(false));
    context.inputs.insert("b".to_string(), Value::Bool(false));
    let result = block.execute(context.clone()).unwrap();
    assert_eq!(result.get("result"), Some(&Value::Bool(false)));
    context.inputs.insert("b".to_string(), Value::Bool(true));
    let result = block.execute(context).unwrap();
    assert_eq!(result.get("result"), Some(&Value::Bool(true)));
}

#[test]
fn test_not_block() {
    let block = NotBlock;
    let mut context = BlockContext::new();
    context.inputs.insert("value".to_string(), Value::Bool(true));
    let result = block.execute(context.clone()).unwrap();
    assert_eq!(result.get("result"), Some(&Value::Bool(false)));
    context.inputs.insert("value".to_string(), Value::Bool(false));
    let result = block.execute(context).unwrap();
    assert_eq!(result.get("result"), Some(&Value::Bool(true)));
}

#[test]
fn logic_rejects_non_booleans() {
    let mut context = BlockContext::new();
    context.inputs.insert("a".to_string(), Value::Int(1));
    context.inputs.insert("b".to_string(), Value::Bool(true));
    assert!(AndBlock.execute(context.clone()).is_err());
    assert!(OrBlock.execute(context).is_err());
    assert!(NotBlock.execute(BlockContext::new()).is_err());
}

#[test]
fn test_equal_block() {
    let block = EqualBlock;
    let mut context = BlockContext::new();
    context.inputs.insert("a".to_string(), float(5.0));
    context.inputs.insert("b".to_string(), float(5.0));
    let result = block.execute(context.clone()).unwrap();
    assert_eq!(result.get("result"), Some(&Value::Bool(true)));
    context.inputs.insert("b".to_string(), float(3.0));
    let result = block.execute(context.clone()).unwrap();
    assert_eq!(result.get("result"), Some(&Value::Bool(false)));
    context.inputs.insert("a".to_string(), Value::String("hello".to_string()));
    context.inputs.insert("b".to_string(), Value::String("hello".to_string()));
    let result = block.execute(context).unwrap();
    assert_eq!(result.get("result"), Some(&Value::Bool(true)));
}

#[test]
fn equal_keeps_int_and_float_apart() {
    let mut context = BlockContext::new();
    context.inputs.insert("a".to_string(), Value::Int(5));
    context.inputs.insert("b".to_string(), float(5.0));
    let result = EqualBlock.execute(context).unwrap();
    assert_eq!(result.get("result"), Some(&Value::Bool(false)));
}

#[test]
fn metadata_ids() {
    assert_eq!(ConstantBlock.metadata().id, "core.constant");
    assert_eq!(DebugBlock.metadata().id, "core.debug");
    assert_eq!(ConcatBlock.metadata().id, "string.concat");
    assert_eq!(IfBlock.metadata().id, "control.if");
    assert_eq!(GateBlock.metadata().id, "control.gate");
    assert_eq!(AndBlock.metadata().id, "logic.and");
    assert_eq!(OrBlock.metadata().id, "logic.or");
    assert_eq!(NotBlock.metadata().id, "logic.not");
    assert_eq!(EqualBlock.metadata().id, "logic.equal");
    assert_eq!(IfBlock.metadata().inputs.len(), 3);
}
