//! Errors reported by the library.
use crate::dag::Variable;
use vstd::prelude::*;

verus! {

/// What can go wrong in causal-graph operations.
#[derive(Debug)]
pub enum CausalError {
    /// The graph has a cycle, so it has no topological order.
    TopologicalSortFailed,
    /// A variable was asked for that the graph does not hold.
    MissingVariable(Variable),
}

impl CausalError {
    /// A readable description of the error.
    pub fn message(&self) -> (r: String)
        ensures
            match self {
                CausalError::TopologicalSortFailed => r@ == "topological sort failed, the graph is not a DAG"@,
                CausalError::MissingVariable(_) => r@ == "variable not found"@,
            },
    {
        match self {
            CausalError::TopologicalSortFailed => String::from_str("topological sort failed, the graph is not a DAG"),
            CausalError::MissingVariable(_) => String::from_str("variable not found"),
        }
    }
}

} // verus!
