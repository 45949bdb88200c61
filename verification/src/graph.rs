//! The dependency graph and the types it is made of.

pub mod dependency_graph;
pub mod stable;

pub use dependency_graph::{
    DepEdge, DependencyGraph, DependencyGraphError, DependencyId, DependencyInfo, Framework, PackageInfo,
    ProjectInfo, SerializableGraph, SerializableGraphError,
};
