//! Dependency resolution over graphs of named assets: direct dependents,
//! longest dependency chains, cycle discovery, bounded breadth-first
//! analysis and topological ordering.

pub mod graph;
pub mod depth;
pub mod cycles;
pub mod topo;
pub mod analysis;
pub mod resolver;
pub mod laws;

pub use analysis::{AssetDependency, DependencyAnalysis};
pub use graph::{AssetEntry, DependencyMap, ResolveError};
pub use resolver::{DependencyResolver, DEFAULT_MAX_DEPTH};
