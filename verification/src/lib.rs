//! Exact maximum-clique search over small undirected graphs.
//!
//! The crate has two parts: an undirected-graph data type keyed by positive
//! integer node identifiers ([`graph::Graph`]), and an exhaustive backtracking
//! solver ([`solver::backtracking::solve`]) that returns a largest complete
//! subgraph of its input.

pub mod graph;
pub mod solver;
