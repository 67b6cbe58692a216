//! A directed, labeled graph of locations with a movable cursor.
//!
//! A graph is built incrementally: it starts from a single root node, and
//! every later node is created as the destination of a new labeled edge from
//! the node the cursor stands on. Nodes are never removed. Each node carries
//! a caller-supplied text element and at most one outgoing edge per label.
//! The whole graph can be flattened to an ordered list of records and
//! rebuilt from one without losing identity or structure.

pub mod codec;
pub mod errors;
pub mod graph;
pub mod node;
pub mod store;

pub use codec::decode;
pub use codec::encode;
pub use codec::Record;
pub use errors::DecodeError;
pub use errors::GraphError;
pub use graph::Graph;
pub use node::Edge;
pub use node::Node;
pub use store::NodeStore;
