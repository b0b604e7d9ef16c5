//! Shortest rolling distance through a maze in which a pushed ball keeps
//! rolling until a wall or the edge of the grid stops it.
use vstd::prelude::*;

pub mod grid;
pub mod laws;
mod search;
pub mod solver;

pub use solver::Solution;

verus! {

} // verus!
