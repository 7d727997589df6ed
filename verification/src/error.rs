//! Why an ingestion is refused.

use vstd::prelude::*;

verus! {

/// The faults of a batch handed to ingestion.
#[derive(Clone, Copy, Debug, PartialEq, Eq, Structural)]
pub enum FlowError {
    /// The identifier names no node of the graph.
    UnknownNode,
    /// The identifier names a node that is not a base table.
    InvalidTarget,
}

impl FlowError {
    /// A short description of the fault.
    pub fn message(&self) -> (text: String)
        ensures
            text@ == match *self {
                FlowError::UnknownNode => "unknown node"@,
                FlowError::InvalidTarget => "invalid target"@,
            },
    {
        match self {
            FlowError::UnknownNode => "unknown node".to_owned(),
            FlowError::InvalidTarget => "invalid target".to_owned(),
        }
    }
}

} // verus!
