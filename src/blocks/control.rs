//! Blocks that choose between values.
use vstd::prelude::*;
use crate::block::{Block, BlockContext, BlockMetadata};
use crate::blocks::{bool_at, get_bool, port, single, single_output};
use crate::error::{CircuitError, ErrorModel};
use crate::value::{Value, ValueMap, ValueModel};

verus! {

/// Outputs `then_value` when the boolean `condition` holds, else `else_value`.
pub struct IfBlock;

impl Block for IfBlock {
    open spec fn type_id(&self) -> Seq<char> {
        "control.if"@
    }

    open spec fn failure(
        &self,
        inputs: Map<Seq<char>, ValueModel>,
        config: Map<Seq<char>, ValueModel>,
    ) -> ErrorModel {
        if bool_at(inputs, "condition"@) is None {
            ErrorModel::InvalidInput("Missing or invalid input 'condition'"@)
        } else if !inputs.contains_key("then_value"@) {
            ErrorModel::InvalidInput("Missing input 'then_value'"@)
        } else {
            ErrorModel::InvalidInput("Missing input 'else_value'"@)
        }
    }

    open spec fn outcome(
        &self,
        inputs: Map<Seq<char>, ValueModel>,
        config: Map<Seq<char>, ValueModel>,
    ) -> Option<Map<Seq<char>, ValueModel>> {
        match bool_at(inputs, "condition"@) {
            Some(c) => if inputs.contains_key("then_value"@) && inputs.contains_key("else_value"@) {
                Some(
                    single(
                        "result"@,
                        if c {
                            inputs["then_value"@]
                        } else {
                            inputs["else_value"@]
                        },
                    ),
                )
            } else {
                None
            },
            None => None,
        }
    }

    fn metadata(&self) -> (m: BlockMetadata) {
        BlockMetadata {
            id: "control.if".to_owned(),
            name: "If".to_owned(),
            description: "Select between two values based on a condition".to_owned(),
            inputs: vec![
                port("condition", "Condition", "bool"),
                port("then_value", "Then Value", "any"),
                port("else_value", "Else Value", "any"),
            ],
            outputs: vec![port("result", "Result", "any")],
            config_schema: Vec::new(),
        }
    }

    fn execute(&self, context: BlockContext) -> (r: Result<ValueMap, CircuitError>) {
        let condition = match get_bool(&context.inputs, "condition") {
            Some(c) => c,
            None => {
                return Err(
                    CircuitError::InvalidInput("Missing or invalid input 'condition'".to_owned()),
                );
            },
        };
        let then_value = match context.get_input("then_value") {
            Some(v) => v.clone(),
            None => {
                return Err(CircuitError::InvalidInput("Missing input 'then_value'".to_owned()));
            },
        };
        let else_value = match context.get_input("else_value") {
            Some(v) => v.clone(),
            None => {
                return Err(CircuitError::InvalidInput("Missing input 'else_value'".to_owned()));
            },
        };
        Ok(
            single_output(
                "result",
                if condition {
                    then_value
                } else {
                    else_value
                },
            ),
        )
    }
}

/// Passes `value` on while the boolean `open` holds, and Null otherwise.
pub struct GateBlock;

impl Block for GateBlock {
    open spec fn type_id(&self) -> Seq<char> {
        "control.gate"@
    }

    open spec fn failure(
        &self,
        inputs: Map<Seq<char>, ValueModel>,
        config: Map<Seq<char>, ValueModel>,
    ) -> ErrorModel {
        if !inputs.contains_key("value"@) {
            ErrorModel::InvalidInput("Missing input 'value'"@)
        } else {
            ErrorModel::InvalidInput("Missing or invalid input 'open'"@)
        }
    }

    open spec fn outcome(
        &self,
        inputs: Map<Seq<char>, ValueModel>,
        config: Map<Seq<char>, ValueModel>,
    ) -> Option<Map<Seq<char>, ValueModel>> {
        if inputs.contains_key("value"@) {
            match bool_at(inputs, "open"@) {
                Some(o) => Some(
                    single(
                        "result"@,
                        if o {
                            inputs["value"@]
                        } else {
                            ValueModel::Null
                        },
                    ),
                ),
                None => None,
            }
        } else {
            None
        }
    }

    fn metadata(&self) -> (m: BlockMetadata) {
        BlockMetadata {
            id: "control.gate".to_owned(),
            name: "Gate".to_owned(),
            description: "Pass through a value when gate is open, otherwise output Null".to_owned(),
            inputs: vec![port("value", "Value", "any"), port("open", "Open", "bool")],
            outputs: vec![port("result", "Result", "any")],
            config_schema: Vec::new(),
        }
    }

    fn execute(&self, context: BlockContext) -> (r: Result<ValueMap, CircuitError>) {
        let value = match context.get_input("value") {
            Some(v) => v.clone(),
            None => {
                return Err(CircuitError::InvalidInput("Missing input 'value'".to_owned()));
            },
        };
        let open = match get_bool(&context.inputs, "open") {
            Some(o) => o,
            None => {
                return Err(CircuitError::InvalidInput("Missing or invalid input 'open'".to_owned()));
            },
        };
        Ok(
            single_output(
                "result",
                if open {
                    value
                } else {
                    Value::Null
                },
            ),
        )
    }
}

} // verus!
