//! Shortest-solution search for sliding-robot puzzles.
//!
//! A board is a rectangular grid of cells. Each cell holds a bit mask of the
//! walls on its four edges and of whether a robot stands on it. A robot moves
//! by sliding in one of four directions until a wall or another robot stops
//! it. The [`Solver`](solver::Solver) finds a shortest sequence of slides that
//! brings a designated robot onto a goal cell.
use vstd::prelude::*;

pub mod grid;
pub mod heuristic;
pub mod search;
pub mod solver;

verus! {

} // verus!
