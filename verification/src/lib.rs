//! Single-pair shortest paths over a weighted directed graph with
//! non-negative integer costs.
//!
//! The engine is a label-correcting worklist algorithm: a deduplicating
//! relaxation queue (at most one pending task per ordered node pair, always
//! holding the cheapest candidate offered so far) drains while a per-node
//! routing table records, for every node reached, the best known predecessor,
//! the best known total cost, and the best cost seen via each distinct
//! predecessor. A path is reconstructed by walking the predecessor links
//! backward from the goal.

use vstd::prelude::*;

pub mod graph;
pub mod model;
pub mod queue;
pub mod routing;

pub use graph::Graph;
pub use queue::WorkQueue;
pub use routing::RoutingInfo;

verus! {

/// A graph vertex identifier.
pub type Node = usize;

/// An edge weight or a total path cost.
pub type Cost = i32;

/// A directed edge: source, destination, cost.
pub type Edge = (Node, Node, Cost);

} // verus!
