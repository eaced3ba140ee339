pub mod backtracking;
