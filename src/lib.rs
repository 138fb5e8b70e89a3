//! A 9×9 Sudoku solver by backtracking, in two variants: one that rescans the
//! row, column and box for every trial digit, and one that keeps used-digit
//! bitmasks per row, column and box. Both are proved to return the first
//! solution of the same row-major, ascending-digit search.
pub mod board;
pub mod naive;
pub mod bitmask;
pub mod laws;
