//! Blocks that emit or pass on a value unchanged.
use vstd::prelude::*;
use crate::block::{Block, BlockContext, BlockMetadata};
use crate::blocks::{port, single, single_output};
use crate::error::{CircuitError, ErrorModel};
use crate::value::{ValueMap, ValueModel};

verus! {

/// Outputs the configured `value` at port `value`.
pub struct ConstantBlock;

impl Block for ConstantBlock {
    open spec fn type_id(&self) -> Seq<char> {
        "core.constant"@
    }

    open spec fn failure(
        &self,
        inputs: Map<Seq<char>, ValueModel>,
        config: Map<Seq<char>, ValueModel>,
    ) -> ErrorModel {
        ErrorModel::InvalidInput("Missing config 'value'"@)
    }

    open spec fn outcome(
        &self,
        inputs: Map<Seq<char>, ValueModel>,
        config: Map<Seq<char>, ValueModel>,
    ) -> Option<Map<Seq<char>, ValueModel>> {
        if config.contains_key("value"@) {
            Some(single("value"@, config["value"@]))
        } else {
            None
        }
    }

    fn metadata(&self) -> (m: BlockMetadata) {
        let mut schema: Vec<(String, String)> = Vec::new();
        schema.push(("value".to_owned(), "any".to_owned()));
        BlockMetadata {
            id: "core.constant".to_owned(),
            name: "Constant".to_owned(),
            description: "Outputs a constant value".to_owned(),
            inputs: Vec::new(),
            outputs: vec![port("value", "Value", "any")],
            config_schema: schema,
        }
    }

    fn execute(&self, context: BlockContext) -> (r: Result<ValueMap, CircuitError>) {
        match context.get_config("value") {
            Some(v) => Ok(single_output("value", v.clone())),
            None => Err(CircuitError::InvalidInput("Missing config 'value'".to_owned())),
        }
    }
}

/// Passes the input `value` on unchanged, for inspection along a graph.
pub struct DebugBlock;

impl Block for DebugBlock {
    open spec fn type_id(&self) -> Seq<char> {
        "core.debug"@
    }

    open spec fn failure(
        &self,
        inputs: Map<Seq<char>, ValueModel>,
        config: Map<Seq<char>, ValueModel>,
    ) -> ErrorModel {
        ErrorModel::InvalidInput("Missing input 'value'"@)
    }

    open spec fn outcome(
        &self,
        inputs: Map<Seq<char>, ValueModel>,
        config: Map<Seq<char>, ValueModel>,
    ) -> Option<Map<Seq<char>, ValueModel>> {
        if inputs.contains_key("value"@) {
            Some(single("value"@, inputs["value"@]))
        } else {
            None
        }
    }

    fn metadata(&self) -> (m: BlockMetadata) {
        BlockMetadata {
            id: "core.debug".to_owned(),
            name: "Debug".to_owned(),
            description: "Print debug information".to_owned(),
            inputs: vec![port("value", "Value", "any")],
            outputs: vec![port("value", "Value", "any")],
            config_schema: Vec::new(),
        }
    }

    fn execute(&self, context: BlockContext) -> (r: Result<ValueMap, CircuitError>) {
        match context.get_input("value") {
            Some(v) => Ok(single_output("value", v.clone())),
            None => Err(CircuitError::InvalidInput("Missing input 'value'".to_owned())),
        }
    }
}

} // verus!
