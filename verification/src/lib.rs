//! Dependency graphs of .NET solutions: the graph of projects and NuGet
//! packages, the readers that build it from `nuget.dgspec.json` and
//! `project.assets.json` documents, and the logic of the viewer built on it.

pub mod graph;
pub mod parsing;
pub mod text;
pub mod viewer;
pub mod dependency;
pub mod legacy;
