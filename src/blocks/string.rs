//! String blocks.
use vstd::prelude::*;
use vstd::string::StringExecFns;
use crate::block::{Block, BlockContext, BlockMetadata};
use crate::blocks::{port, single, single_output, str_at};
use crate::error::{CircuitError, ErrorModel};
use crate::value::{Value, ValueMap, ValueModel};

verus! {

/// Concatenates the string inputs `a` and `b`.
pub struct ConcatBlock;

impl Block for ConcatBlock {
    open spec fn type_id(&self) -> Seq<char> {
        "string.concat"@
    }

    open spec fn failure(
        &self,
        inputs: Map<Seq<char>, ValueModel>,
        config: Map<Seq<char>, ValueModel>,
    ) -> ErrorModel {
        if str_at(inputs, "a"@) is None {
            ErrorModel::InvalidInput("Missing or invalid input 'a'"@)
        } else {
            ErrorModel::InvalidInput("Missing or invalid input 'b'"@)
        }
    }

    open spec fn outcome(
        &self,
        inputs: Map<Seq<char>, ValueModel>,
        config: Map<Seq<char>, ValueModel>,
    ) -> Option<Map<Seq<char>, ValueModel>> {
        match (str_at(inputs, "a"@), str_at(inputs, "b"@)) {
            (Some(a), Some(b)) => Some(single("result"@, ValueModel::Str(a + b))),
            _ => None,
        }
    }

    fn metadata(&self) -> (m: BlockMetadata) {
        BlockMetadata {
            id: "string.concat".to_owned(),
            name: "Concatenate".to_owned(),
            description: "Concatenate two strings".to_owned(),
            inputs: vec![port("a", "String A", "string"), port("b", "String B", "string")],
            outputs: vec![port("result", "Result", "string")],
            config_schema: Vec::new(),
        }
    }

    fn execute(&self, context: BlockContext) -> (r: Result<ValueMap, CircuitError>) {
        let a = match context.get_input("a") {
            Some(v) => match v.as_str() {
                Some(s) => s,
                None => {
                    return Err(CircuitError::InvalidInput("Missing or invalid input 'a'".to_owned()));
                },
            },
            None => {
                return Err(CircuitError::InvalidInput("Missing or invalid input 'a'".to_owned()));
            },
        };
        let b = match context.get_input("b") {
            Some(v) => match v.as_str() {
                Some(s) => s,
                None => {
                    return Err(CircuitError::InvalidInput("Missing or invalid input 'b'".to_owned()));
                },
            },
            None => {
                return Err(CircuitError::InvalidInput("Missing or invalid input 'b'".to_owned()));
            },
        };
        let mut joined = a.to_owned();
        joined.append(b);
        Ok(single_output("result", Value::String(joined)))
    }
}

} // verus!
