//! A 9x9 sudoku library: a board with verified legality checking and a
//! backtracking solver whose outcomes are proved correct.
//!
//! The board module owns the cell matrix and the two legality-checking
//! modes; the solver module owns the depth-first search. A successful solve
//! is proved to yield a solved grid that keeps every clue of the input, a
//! refused input is proved to be exactly an illegal one, and an exhausted
//! search is proved to mean that no solution exists.

pub mod board;
pub mod solver;
