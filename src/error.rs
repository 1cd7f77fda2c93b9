//! Errors of the graph, the engine and the blocks.
use vstd::prelude::*;

verus! {

/// What went wrong, with the identifiers involved.
#[derive(Debug)]
pub enum CircuitError {
    /// A block's computation is undefined for its inputs.
    BlockExecution(String),
    /// A structural problem that no more specific variant describes.
    Graph(String),
    /// A graph already has a node with this id.
    DuplicateNode(String),
    /// No node has this id.
    NodeNotFound(String),
    /// A connection was refused for the reason given.
    InvalidConnection(String),
    /// The connections would form, or form, a cycle.
    CycleDetected,
    /// A block's input or configuration is missing or has the wrong shape.
    InvalidInput(String),
    /// A value had another type than the one expected.
    TypeMismatch { expected: String, actual: String },
    /// A block type with this id is already registered.
    DuplicateBlockType(String),
    /// A node refers to a block type that is not registered.
    UnknownBlockType(String),
    /// No graph with this id is loaded.
    GraphNotFound(String),
    /// The block of the node with this id failed with `cause`.
    NodeExecution { node_id: String, cause: Box<CircuitError> },
}

/// What an error says, with strings as their characters.
pub enum ErrorModel {
    BlockExecution(Seq<char>),
    Graph(Seq<char>),
    DuplicateNode(Seq<char>),
    NodeNotFound(Seq<char>),
    InvalidConnection(Seq<char>),
    CycleDetected,
    InvalidInput(Seq<char>),
    TypeMismatch { expected: Seq<char>, actual: Seq<char> },
    DuplicateBlockType(Seq<char>),
    UnknownBlockType(Seq<char>),
    GraphNotFound(Seq<char>),
    NodeExecution { node_id: Seq<char>, cause: Box<ErrorModel> },
}

impl CircuitError {
    /// What the error says.
    pub open spec fn model(&self) -> ErrorModel
        decreases self,
    {
        match self {
            CircuitError::BlockExecution(m) => ErrorModel::BlockExecution(m@),
            CircuitError::Graph(m) => ErrorModel::Graph(m@),
            CircuitError::DuplicateNode(m) => ErrorModel::DuplicateNode(m@),
            CircuitError::NodeNotFound(m) => ErrorModel::NodeNotFound(m@),
            CircuitError::InvalidConnection(m) => ErrorModel::InvalidConnection(m@),
            CircuitError::CycleDetected => ErrorModel::CycleDetected,
            CircuitError::InvalidInput(m) => ErrorModel::InvalidInput(m@),
            CircuitError::TypeMismatch { expected, actual } => ErrorModel::TypeMismatch {
                expected: expected@,
                actual: actual@,
            },
            CircuitError::DuplicateBlockType(m) => ErrorModel::DuplicateBlockType(m@),
            CircuitError::UnknownBlockType(m) => ErrorModel::UnknownBlockType(m@),
            CircuitError::GraphNotFound(m) => ErrorModel::GraphNotFound(m@),
            CircuitError::NodeExecution { node_id, cause } => ErrorModel::NodeExecution {
                node_id: node_id@,
                cause: Box::new(cause.model()),
            },
        }
    }
}

} // verus!
