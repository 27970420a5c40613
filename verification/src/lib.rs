//! A Sudoku solver that reduces the puzzle to an exact-cover problem and
//! searches it with an iterative backtracking algorithm in the style of
//! Knuth's Algorithm X.
//!
//! The solver works on a fixed table mapping each of the 729 possible digit
//! placements (a "choice") to the 324 constraints it satisfies. A search
//! keeps a set of chosen choices, a set of excluded choices, and a stack of
//! undo records, and either completes the grid or reports that the seed is
//! unsolvable.

pub mod board;
pub mod codec;
pub mod constraints;
pub mod links;
pub mod search;
pub mod solver;
pub mod termination;
pub mod validity;

pub use board::Board;
pub use search::{DecisionStrategy, SolveError};
pub use solver::{launch_algorithm_x, solve_boards};
