//! Line-by-line deduction for nonogram puzzles.
//!
//! Every row and every column of a puzzle carries a clue: the lengths of its blocks of
//! filled cells, in order. From the clues and from the cells that are already known, the
//! solver works out which further cells must be filled and which must stay free, one line
//! at a time, until a pass over all lines changes nothing or a clue turns out to be
//! impossible to meet.

pub mod cell;
pub mod enumerate;
pub mod grid;
pub mod line;
pub mod lists;
pub mod puzzle;
pub mod runs;
pub mod text;

pub use cell::CellState;
pub use enumerate::generate_possibilities;
pub use line::{solve_line, Contradiction};
pub use puzzle::{is_well_formed, propagate, solve_puzzle, Outcome, SolveResult};
