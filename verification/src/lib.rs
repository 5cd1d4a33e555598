//! Dependency-graph resolution and tag cache/merge engine for a cargo
//! workspace: builds one dependency graph per workspace root from package
//! metadata, decides which packages' tag files can be reused from a cache,
//! and merges per-package tag files into one index per root.

pub mod bytes;
pub mod cache;
pub mod dirs;
pub mod error;
pub mod graph;
pub mod metadata;
pub mod index;
pub mod merge;
pub mod pkg;
