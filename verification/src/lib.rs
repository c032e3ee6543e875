//! Reachability in a grid maze for a ball that slides until it hits a wall
//! or the grid boundary, and only then comes to rest.
//!
//! The mathematical model of the maze and of the sliding moves lives in
//! [`maze`]; the executable solver is [`solver::Solution`].

pub mod maze;
pub mod solver;

pub use solver::Solution;
