//! The contract that every computational unit implements.
use std::sync::Arc;
use vstd::prelude::*;
use crate::error::{CircuitError, ErrorModel};
use crate::value::{Value, ValueMap, ValueModel};

verus! {

/// Definition of an input or output port; advisory only.
#[derive(Debug, Clone)]
pub struct PortDefinition {
    /// Port identifier, the name connections use.
    pub id: String,
    /// Human-readable name.
    pub name: String,
    /// Expected data type tag.
    pub data_type: String,
    /// Whether the port is required.
    pub required: bool,
}

/// Description of a block type.
#[derive(Debug, Clone)]
pub struct BlockMetadata {
    /// Unique identifier of the block type: its registry key.
    pub id: String,
    pub name: String,
    pub description: String,
    pub inputs: Vec<PortDefinition>,
    pub outputs: Vec<PortDefinition>,
    /// Configuration key and the type tag expected for it.
    pub config_schema: Vec<(String, String)>,
}

/// What a block is handed for one execution.
#[derive(Debug)]
pub struct BlockContext {
    /// Values gathered from connected nodes, by input port.
    pub inputs: ValueMap,
    /// The node's static configuration.
    pub config: ValueMap,
}

impl BlockContext {
    /// A context without inputs or configuration.
    pub fn new() -> (c: BlockContext)
        ensures
            c.inputs.model() == Map::<Seq<char>, ValueModel>::empty(),
            c.config.model() == Map::<Seq<char>, ValueModel>::empty(),
    {
        BlockContext { inputs: ValueMap::new(), config: ValueMap::new() }
    }

    /// The input at port `port_id`, if one was gathered.
    pub fn get_input(&self, port_id: &str) -> (r: Option<&Value>)
        ensures
            match r {
                Some(v) => self.inputs.model().contains_key(port_id@) && v.model()
                    == self.inputs.model()[port_id@],
                None => !self.inputs.model().contains_key(port_id@),
            },
    {
        self.inputs.get(port_id)
    }

    /// The configuration value for `key`, if there is one.
    pub fn get_config(&self, key: &str) -> (r: Option<&Value>)
        ensures
            match r {
                Some(v) => self.config.model().contains_key(key@) && v.model()
                    == self.config.model()[key@],
                None => !self.config.model().contains_key(key@),
            },
    {
        self.config.get(key)
    }
}

impl Clone for BlockContext {
    fn clone(&self) -> (c: BlockContext)
        ensures
            c.inputs.model() == self.inputs.model(),
            c.config.model() == self.config.model(),
    {
        BlockContext { inputs: self.inputs.clone(), config: self.config.clone() }
    }
}

impl Default for BlockContext {
    fn default() -> (c: BlockContext)
        ensures
            c.inputs.model() == Map::<Seq<char>, ValueModel>::empty(),
            c.config.model() == Map::<Seq<char>, ValueModel>::empty(),
    {
        BlockContext::new()
    }
}

/// A computational unit. Its outputs are a function of its inputs and
/// configuration alone, which `outcome` names.
pub trait Block: Send + Sync {
    /// The identifier that `metadata` reports. Every block in this crate
    /// defines it; an implementation that keeps the default is not verified
    /// and nothing is known of its identifier.
    closed spec fn type_id(&self) -> Seq<char> {
        Seq::empty()
    }

    /// The outputs for these inputs and this configuration, or `None` where
    /// the block fails. As with `type_id`, an implementation that keeps the
    /// default is not verified.
    closed spec fn outcome(
        &self,
        inputs: Map<Seq<char>, ValueModel>,
        config: Map<Seq<char>, ValueModel>,
    ) -> Option<Map<Seq<char>, ValueModel>> {
        None
    }

    /// The error the block reports for these inputs and this configuration
    /// where `outcome` is `None`. As with `type_id`, an implementation that
    /// keeps the default is not verified.
    closed spec fn failure(
        &self,
        inputs: Map<Seq<char>, ValueModel>,
        config: Map<Seq<char>, ValueModel>,
    ) -> ErrorModel {
        arbitrary()
    }

    fn metadata(&self) -> (m: BlockMetadata)
        ensures
            m.id@ == self.type_id(),
    ;

    fn execute(&self, context: BlockContext) -> (r: Result<ValueMap, CircuitError>)
        ensures
            match r {
                Ok(out) => self.outcome(context.inputs.model(), context.config.model()) == Some(
                    out.model(),
                ),
                Err(e) => self.outcome(context.inputs.model(), context.config.model()) is None
                    && e.model() == self.failure(context.inputs.model(), context.config.model()),
            },
    ;

    /// Checks a configuration before use; accepts every one unless a block
    /// says otherwise.
    fn validate(&self, config: &ValueMap) -> (r: Result<(), CircuitError>)
        default_ensures
            r is Ok,
    {
        Ok(())
    }
}

impl<T: Block + ?Sized> Block for Arc<T> {
    open spec fn type_id(&self) -> Seq<char> {
        (**self).type_id()
    }

    open spec fn outcome(
        &self,
        inputs: Map<Seq<char>, ValueModel>,
        config: Map<Seq<char>, ValueModel>,
    ) -> Option<Map<Seq<char>, ValueModel>> {
        (**self).outcome(inputs, config)
    }

    open spec fn failure(
        &self,
        inputs: Map<Seq<char>, ValueModel>,
        config: Map<Seq<char>, ValueModel>,
    ) -> ErrorModel {
        (**self).failure(inputs, config)
    }

    fn metadata(&self) -> (m: BlockMetadata) {
        (**self).metadata()
    }

    fn execute(&self, context: BlockContext) -> (r: Result<ValueMap, CircuitError>) {
        (**self).execute(context)
    }

    fn validate(&self, config: &ValueMap) -> (r: Result<(), CircuitError>) {
        (**self).validate(config)
    }
}

} // verus!
