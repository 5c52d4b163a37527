//! Integer network-flow core of a grid phase unwrapper: edge cost model,
//! residual graphs over the dual grid, negative-cycle cancellation, tree
//! cycle bases and label refinement.
use vstd::prelude::*;

pub mod edges;
pub mod incr_cost;
pub mod flow_schedule;
pub mod residual;
pub mod residual_view;
pub mod cycle_objective;
pub mod label_energy;
pub mod components;
pub mod tree_cycle;
pub mod rooted_tree;
pub mod tree_path;
pub mod tree_basis;
pub mod tree_compact;
pub mod mst_flow;
pub mod route;
pub mod route_search;
pub mod pair_route;
pub mod residue_pairing;
pub mod label_seed;
pub mod ifg_index;
pub mod grid_index;
pub mod file_names;
pub mod cut;
pub mod patch;
pub mod grid_sum;

verus! {

} // verus!
