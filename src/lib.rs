//! A 9x9 Sudoku solver: a bitmask constraint-propagation engine run to a
//! fixpoint, with a depth-first search over the cells it cannot resolve.
pub mod grid;
pub mod propagate;
pub mod search;
