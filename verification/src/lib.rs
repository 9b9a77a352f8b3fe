//! Dependency-graph scheduling engine for chains of work items ("beads").
//!
//! The crate builds a dependency graph from a task description, orders it
//! topologically, detects cycles, and runs the two-pass Critical Path Method
//! (CPM) to compute per-node slack and the canonical critical path.

pub mod critical;
pub mod molecule;
pub mod resolve;
pub mod topo;

pub use critical::critical_path_internal;
pub use molecule::generate_molecule_internal;
pub use molecule::topological_sort;
pub use topo::topological_order;
