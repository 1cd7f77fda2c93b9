//! Boolean blocks.
use vstd::prelude::*;
use crate::block::{Block, BlockContext, BlockMetadata};
use crate::blocks::{bool_at, get_bool, port, single, single_output};
use crate::error::{CircuitError, ErrorModel};
use crate::value::{model_eq, Value, ValueMap, ValueModel};

verus! {

/// Logical AND of the boolean inputs `a` and `b`.
pub struct AndBlock;

impl Block for AndBlock {
    open spec fn type_id(&self) -> Seq<char> {
        "logic.and"@
    }

    open spec fn failure(
        &self,
        inputs: Map<Seq<char>, ValueModel>,
        config: Map<Seq<char>, ValueModel>,
    ) -> ErrorModel {
        if bool_at(inputs, "a"@) is None {
            ErrorModel::InvalidInput("Missing or invalid input 'a'"@)
        } else {
            ErrorModel::InvalidInput("Missing or invalid input 'b'"@)
        }
    }

    open spec fn outcome(
        &self,
        inputs: Map<Seq<char>, ValueModel>,
        config: Map<Seq<char>, ValueModel>,
    ) -> Option<Map<Seq<char>, ValueModel>> {
        match (bool_at(inputs, "a"@), bool_at(inputs, "b"@)) {
            (Some(a), Some(b)) => Some(single("result"@, ValueModel::Bool(a && b))),
            _ => None,
        }
    }

    fn metadata(&self) -> (m: BlockMetadata) {
        BlockMetadata {
            id: "logic.and".to_owned(),
            name: "And".to_owned(),
            description: "Logical AND of two booleans".to_owned(),
            inputs: vec![port("a", "A", "bool"), port("b", "B", "bool")],
            outputs: vec![port("result", "Result", "bool")],
            config_schema: Vec::new(),
        }
    }

    fn execute(&self, context: BlockContext) -> (r: Result<ValueMap, CircuitError>) {
        let a = match get_bool(&context.inputs, "a") {
            Some(a) => a,
            None => {
                return Err(CircuitError::InvalidInput("Missing or invalid input 'a'".to_owned()));
            },
        };
        let b = match get_bool(&context.inputs, "b") {
            Some(b) => b,
            None => {
                return Err(CircuitError::InvalidInput("Missing or invalid input 'b'".to_owned()));
            },
        };
        Ok(single_output("result", Value::Bool(a && b)))
    }
}

/// Logical OR of the boolean inputs `a` and `b`.
pub struct OrBlock;

impl Block for OrBlock {
    open spec fn type_id(&self) -> Seq<char> {
        "logic.or"@
    }

    open spec fn failure(
        &self,
        inputs: Map<Seq<char>, ValueModel>,
        config: Map<Seq<char>, ValueModel>,
    ) -> ErrorModel {
        if bool_at(inputs, "a"@) is None {
            ErrorModel::InvalidInput("Missing or invalid input 'a'"@)
        } else {
            ErrorModel::InvalidInput("Missing or invalid input 'b'"@)
        }
    }

    open spec fn outcome(
        &self,
        inputs: Map<Seq<char>, ValueModel>,
        config: Map<Seq<char>, ValueModel>,
    ) -> Option<Map<Seq<char>, ValueModel>> {
        match (bool_at(inputs, "a"@), bool_at(inputs, "b"@)) {
            (Some(a), Some(b)) => Some(single("result"@, ValueModel::Bool(a || b))),
            _ => None,
        }
    }

    fn metadata(&self) -> (m: BlockMetadata) {
        BlockMetadata {
            id: "logic.or".to_owned(),
            name: "Or".to_owned(),
            description: "Logical OR of two booleans".to_owned(),
            inputs: vec![port("a", "A", "bool"), port("b", "B", "bool")],
            outputs: vec![port("result", "Result", "bool")],
            config_schema: Vec::new(),
        }
    }

    fn execute(&self, context: BlockContext) -> (r: Result<ValueMap, CircuitError>) {
        let a = match get_bool(&context.inputs, "a") {
            Some(a) => a,
            None => {
                return Err(CircuitError::InvalidInput("Missing or invalid input 'a'".to_owned()));
            },
        };
        let b = match get_bool(&context.inputs, "b") {
            Some(b) => b,
            None => {
                return Err(CircuitError::InvalidInput("Missing or invalid input 'b'".to_owned()));
            },
        };
        Ok(single_output("result", Value::Bool(a || b)))
    }
}

/// Logical NOT of the boolean input `value`.
pub struct NotBlock;

impl Block for NotBlock {
    open spec fn type_id(&self) -> Seq<char> {
        "logic.not"@
    }

    open spec fn failure(
        &self,
        inputs: Map<Seq<char>, ValueModel>,
        config: Map<Seq<char>, ValueModel>,
    ) -> ErrorModel {
        ErrorModel::InvalidInput("Missing or invalid input 'value'"@)
    }

    open spec fn outcome(
        &self,
        inputs: Map<Seq<char>, ValueModel>,
        config: Map<Seq<char>, ValueModel>,
    ) -> Option<Map<Seq<char>, ValueModel>> {
        match bool_at(inputs, "value"@) {
            Some(v) => Some(single("result"@, ValueModel::Bool(!v))),
            None => None,
        }
    }

    fn metadata(&self) -> (m: BlockMetadata) {
        BlockMetadata {
            id: "logic.not".to_owned(),
            name: "Not".to_owned(),
            description: "Logical NOT of a boolean".to_owned(),
            inputs: vec![port("value", "Value", "bool")],
            outputs: vec![port("result", "Result", "bool")],
            config_schema: Vec::new(),
        }
    }

    fn execute(&self, context: BlockContext) -> (r: Result<ValueMap, CircuitError>) {
        match get_bool(&context.inputs, "value") {
            Some(v) => Ok(single_output("result", Value::Bool(!v))),
            None => Err(CircuitError::InvalidInput("Missing or invalid input 'value'".to_owned())),
        }
    }
}

/// Whether the inputs `a` and `b` are equal values.
pub struct EqualBlock;

impl Block for EqualBlock {
    open spec fn type_id(&self) -> Seq<char> {
        "logic.equal"@
    }

    open spec fn failure(
        &self,
        inputs: Map<Seq<char>, ValueModel>,
        config: Map<Seq<char>, ValueModel>,
    ) -> ErrorModel {
        if !inputs.contains_key("a"@) {
            ErrorModel::InvalidInput("Missing input 'a'"@)
        } else {
            ErrorModel::InvalidInput("Missing input 'b'"@)
        }
    }

    open spec fn outcome(
        &self,
        inputs: Map<Seq<char>, ValueModel>,
        config: Map<Seq<char>, ValueModel>,
    ) -> Option<Map<Seq<char>, ValueModel>> {
        if inputs.contains_key("a"@) && inputs.contains_key("b"@) {
            Some(single("result"@, ValueModel::Bool(model_eq(inputs["a"@], inputs["b"@]))))
        } else {
            None
        }
    }

    fn metadata(&self) -> (m: BlockMetadata) {
        BlockMetadata {
            id: "logic.equal".to_owned(),
            name: "Equal".to_owned(),
            description: "Check if two values are equal".to_owned(),
            inputs: vec![port("a", "A", "any"), port("b", "B", "any")],
            outputs: vec![port("result", "Result", "bool")],
            config_schema: Vec::new(),
        }
    }

    fn execute(&self, context: BlockContext) -> (r: Result<ValueMap, CircuitError>) {
        let a = match context.get_input("a") {
            Some(a) => a,
            None => {
                return Err(CircuitError::InvalidInput("Missing input 'a'".to_owned()));
            },
        };
        let b = match context.get_input("b") {
            Some(b) => b,
            None => {
                return Err(CircuitError::InvalidInput("Missing input 'b'".to_owned()));
            },
        };
        Ok(single_output("result", Value::Bool(a.equals(b))))
    }
}

} // verus!
