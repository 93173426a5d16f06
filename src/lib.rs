//! Frontier-based search: builds a zero-suppressed decision diagram of the
//! simple s-t paths of a graph, deciding its edges one by one and merging
//! equivalent partial states, and counts the diagram's solutions.
//!
//! - `graph`: vertices and the ordered edge list.
//! - `state`: input checks and the frontier of each stage.
//! - `zdd`: nodes, levels, node and solution counts.
//! - `search`: the pruning rules, the state update and the construction.
//! - `counting`: merging equivalent states keeps the solution count.
//! - `paths`: the count is that of the accepted edge selections, each with
//!   path degrees; with parallel edges between the ends, it is their number.
pub mod counting;
pub mod graph;
pub mod paths;
pub mod search;
pub mod state;
pub mod zdd;

pub use graph::{Edge, Graph};
pub use search::Frontier;
pub use state::{State, StateError};
pub use zdd::{Child, ZDDNode, ZDD};
