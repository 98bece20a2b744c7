use vstd::prelude::*;
use vstd::string::StringExecFns;
use crate::text::{decimal, decimal_text};

verus! {

/// What a fallible graph operation reports.
#[derive(Debug)]
pub enum GraphError {
    /// An operation named a vertex id that the graph does not hold.
    VertexNotFound(usize),
    /// A vertex with this id is already in the graph.
    DuplicateVertex(usize),
    /// The arc from the first id to the second is already in the graph.
    DuplicateEdge(usize, usize),
    /// A graph description has the wrong structure.
    InvalidFormat(String),
    /// Reading a graph description failed.
    IoError(String),
    /// A token of a graph description is not what it should be.
    ParseError(String),
    /// A backend cannot carry out the operation on the value it was given.
    OperationFailed(String),
    /// An algorithm could not complete.
    AlgorithmError(String),
}

impl GraphError {
    /// The text of the error.
    pub open spec fn text(&self) -> Seq<char> {
        match self {
            GraphError::VertexNotFound(id) => "Vertex with ID "@ + decimal_text(*id as nat)
                + " not found"@,
            GraphError::DuplicateVertex(id) => "Vertex with ID "@ + decimal_text(*id as nat)
                + " already exists"@,
            GraphError::DuplicateEdge(from, to) => "Edge between vertices "@ + decimal_text(
                *from as nat,
            ) + " and "@ + decimal_text(*to as nat) + " already exists"@,
            GraphError::InvalidFormat(msg) => "Invalid file format: "@ + msg@,
            GraphError::IoError(msg) => "I/O error: "@ + msg@,
            GraphError::ParseError(msg) => "Parse error: "@ + msg@,
            GraphError::OperationFailed(msg) => "Graph operation failed: "@ + msg@,
            GraphError::AlgorithmError(msg) => "Algorithm error: "@ + msg@,
        }
    }

    /// The error as text.
    pub fn to_string(&self) -> (s: String)
        ensures
            s@ == self.text(),
    {
        match self {
            GraphError::VertexNotFound(id) => {
                let mut s = String::from_str("Vertex with ID ");
                s.append(decimal(*id).as_str());
                s.append(" not found");
                s
            },
            GraphError::DuplicateVertex(id) => {
                let mut s = String::from_str("Vertex with ID ");
                s.append(decimal(*id).as_str());
                s.append(" already exists");
                s
            },
            GraphError::DuplicateEdge(from, to) => {
                let mut s = String::from_str("Edge between vertices ");
                s.append(decimal(*from).as_str());
                s.append(" and ");
                s.append(decimal(*to).as_str());
                s.append(" already exists");
                s
            },
            GraphError::InvalidFormat(msg) => {
                let mut s = String::from_str("Invalid file format: ");
                s.append(msg.as_str());
                s
            },
            GraphError::IoError(msg) => {
                let mut s = String::from_str("I/O error: ");
                s.append(msg.as_str());
                s
            },
            GraphError::ParseError(msg) => {
                let mut s = String::from_str("Parse error: ");
                s.append(msg.as_str());
                s
            },
            GraphError::OperationFailed(msg) => {
                let mut s = String::from_str("Graph operation failed: ");
                s.append(msg.as_str());
                s
            },
            GraphError::AlgorithmError(msg) => {
                let mut s = String::from_str("Algorithm error: ");
                s.append(msg.as_str());
                s
            },
        }
    }
}

} // verus!
