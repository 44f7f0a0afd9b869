//! An in-memory graph container whose directedness and cycle admissibility
//! are fixed by type parameters and enforced on every mutation.

pub mod kinds;
pub mod model;
pub mod unstable_graph;
pub mod dft;
pub mod slots;
pub mod stable_graph;
pub mod codegen;

pub use kinds::{Acyclic, Cyclic, CycleError, Cyclicness, Directed, Direction, EdgeType, GraphError, Undirected};
pub use dft::Dft;
pub use stable_graph::{StableGraph, StableKey};
pub use unstable_graph::{Edge, Graph, UnstableGraph, Vertex};
