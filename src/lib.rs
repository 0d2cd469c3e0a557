//! Accessibility of one destination by walking and scheduled transit: a
//! time-budgeted uniform-cost search, its aggregation over weighted origins,
//! the temporary stop edges of a candidate placement, and the acceptance
//! step of the annealing search over placements.
use vstd::prelude::*;

pub mod aggregate;
pub mod anneal;
pub mod candidate;
pub mod edge_list;
pub mod floodfill;
pub mod floodfill_pt;
pub mod graph;
pub mod optimality;
pub mod walks;

verus! {

} // verus!
