//! A 9x9 Sudoku engine driven by constraint propagation and branching search.
//!
//! A board holds, for each cell, either a settled digit or the digits that are
//! still possible there. The solver repeatedly prunes the possibilities,
//! commits the most constrained cell to one of them, and keeps one sibling
//! board for each of the digits it did not take.

pub mod cell;
pub mod grid;
pub mod sudoku;
pub mod propagate;
pub mod reset;
pub mod complete;
pub mod entropy;
pub mod parse;
mod random;
pub mod collapse;
pub mod frontier;
pub mod givens;
