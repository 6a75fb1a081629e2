//! Two-layer crossing minimisation: a bipartite graph with an exact crossing
//! counter, the pairwise crossing costs of its free nodes, and an insertion
//! heuristic that orders the free nodes from those costs.
pub mod error;
pub mod graph;
pub mod graph_builder;
pub mod application;
