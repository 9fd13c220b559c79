//! A library for phylogenetic trees: an arena-based tree structure, a Newick
//! codec, and topological queries (paths, ancestors, distances, balance
//! indices), with machine-checked contracts.

pub mod edge;
pub mod heights;
pub mod laws;
pub mod mutate;
pub mod newick;
pub mod node;
pub mod paths;
pub mod stats;
pub mod traverse;
pub mod tree;

use vstd::prelude::*;

verus! {

/// A stable index into the tree's node arena.
pub type NodeId = usize;

} // verus!
