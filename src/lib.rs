//! Validation and backtracking solution of 9×9 Sudoku boards.
//!
//! A board is a `Vec` of rows, each a `Vec<u8>`; `0` marks an empty cell and
//! `1..=9` a placed digit. The contracts speak of the board's cells as a
//! `Seq<Seq<u8>>` (see [`grid::cells`]).
pub mod grid;
pub mod validate;
pub mod solver;
pub mod render;
