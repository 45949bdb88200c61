//! The logic of the graph viewer: the project tree, the choice of a reader
//! by file name, package search, interaction events, and text metrics.

pub mod project_tree;
pub mod parser;
pub mod search;
pub mod events;
pub mod metrics;
pub mod panels;
pub mod node_cache;
pub mod file_dialog;
pub mod transform;
pub mod edges;
pub mod packages;
