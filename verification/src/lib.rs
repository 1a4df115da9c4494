//! Local-search building blocks for the split delivery vehicle routing
//! problem: a linked-list solution representation, insertion-based
//! construction and inter-route improvement operators.
use vstd::prelude::*;

pub mod model;
pub mod solution;
pub mod route_context;
pub mod instance;
pub mod random;
pub mod delta;
pub mod cache;
pub mod cost;
pub mod inter_operator;
pub mod utils;
pub mod construction;
pub mod variant_ops;

verus! {

/// Index of a node in the solution's node pool; node 0 is the depot.
pub type Node = u32;

} // verus!
