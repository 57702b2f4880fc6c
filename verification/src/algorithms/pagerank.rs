//! The error of the PageRank graphs.
use vstd::prelude::*;

verus! {

/// Why an edge could not be added to a PageRank graph.
#[derive(Debug, Clone, Copy, PartialEq, Eq, Structural)]
pub enum PagerankError {
    /// The graph already holds as many vertices as its capacity allows.
    CapacityExceeded,
}

impl PagerankError {
    /// The message that describes the error.
    pub fn message(&self) -> (s: String)
        ensures
            *self == PagerankError::CapacityExceeded ==> s@ == "Capacity exceeded"@,
    {
        match self {
            PagerankError::CapacityExceeded => String::from_str("Capacity exceeded"),
        }
    }
}

} // verus!
