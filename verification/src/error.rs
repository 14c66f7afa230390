//! Error kinds shared by the graph structures and the algorithms.

use vstd::prelude::*;

verus! {

/// The failure kinds of the library.
///
/// Each variant carries a short human-readable description. The kind, not the
/// text, is what callers branch on; the text distinguishes the validation
/// failures of bulk operations such as `Graph::remap`.
#[derive(Debug, Clone, PartialEq, Eq)]
pub enum GraphError {
    /// An internal invariant expected always to hold was violated.
    AlgorithmError(String),
    /// Integer narrowing failed, or two directions of one logical edge carry
    /// conflicting weights when merging into an undirected graph.
    ConversionError(String),
    /// An edge was missing or duplicated, or an index was inconsistent.
    EdgeError(String),
    /// An export or other input/output step failed.
    IOError(String),
    /// A vertex was missing, or a degree precondition was violated.
    VertexError(String),
    /// A general precondition of a bulk operation was violated.
    DataError(String),
}

impl GraphError {
    /// The description carried by this error.
    pub fn message(&self) -> (r: &String)
        ensures
            r@ == self.spec_message(),
    {
        match self {
            GraphError::AlgorithmError(m) => m,
            GraphError::ConversionError(m) => m,
            GraphError::EdgeError(m) => m,
            GraphError::IOError(m) => m,
            GraphError::VertexError(m) => m,
            GraphError::DataError(m) => m,
        }
    }

    /// The description carried by this error, as a sequence of characters.
    pub open spec fn spec_message(&self) -> Seq<char> {
        match self {
            GraphError::AlgorithmError(m) => m@,
            GraphError::ConversionError(m) => m@,
            GraphError::EdgeError(m) => m@,
            GraphError::IOError(m) => m@,
            GraphError::VertexError(m) => m@,
            GraphError::DataError(m) => m@,
        }
    }
}

} // verus!
