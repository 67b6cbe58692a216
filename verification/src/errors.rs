//! Error types for graph navigation, mutation and decoding.

use vstd::prelude::*;

verus! {

/// An error from navigating or mutating a graph.
#[derive(Clone, Copy, Debug, PartialEq, Eq, Structural)]
pub enum GraphError {
    /// The current node has no outgoing edge with the requested label.
    NoSuchEdge,
    /// The requested target node id names no node in the store.
    NodeNotFound,
}

/// An error from rebuilding a graph out of a flat record list.
#[derive(Clone, Copy, Debug, PartialEq, Eq, Structural)]
pub enum DecodeError {
    /// The record list is empty, so no root node can be chosen.
    Empty,
    /// Two records carry the same node id.
    DuplicateId,
    /// Some record's edge names a destination id that no record carries.
    DanglingEdge,
}

} // verus!
