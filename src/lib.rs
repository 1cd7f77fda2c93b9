//! A dataflow runtime: blocks wired into an acyclic graph by named ports, run
//! in topological order with values passed from producers to consumers.

pub mod block;
pub mod blocks;
pub mod engine;
pub mod error;
pub mod graph;
pub mod lang;
pub mod schedule;
pub mod value;

pub use block::{Block, BlockContext, BlockMetadata, PortDefinition};
pub use engine::{Engine, NodeOutputs};
pub use error::CircuitError;
pub use graph::{Connection, Graph, Node, NodeId};
pub use value::{Value, ValueMap};
