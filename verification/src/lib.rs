//! Directed and undirected graphs on numbered vertices, with the operations
//! behind Hasse diagrams: reachability, shortest walks avoiding an edge,
//! transitive reduction and closure, sources, sinks and topological order.
pub mod text;
pub mod paths;
pub mod graph;
pub mod reduction_laws;
pub mod closure_laws;
pub mod graph_laws;
pub mod ordering;
pub mod layout;
pub mod edge_input;
pub mod builder;
pub mod builder_laws;
pub mod naming_laws;

pub use builder::{graph, graph_with, GraphBuilder, VertexKey};
pub use graph::Graph;
