//! Graph operators over a simple index-addressed graph container.
//!
//! Nodes and edges are addressed by dense `usize` indices in insertion
//! order. The edge kind (directed or undirected) is part of the graph's type.
pub mod graph;
pub mod intersection;
pub mod laws;

pub use graph::{Directed, EdgeType, Graph, Undirected};
pub use intersection::Intersection;
