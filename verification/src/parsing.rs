//! Readers that build a dependency graph from the documents that NuGet
//! restore writes.

pub mod dgspec;
pub mod project_assets;
