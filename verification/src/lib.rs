//! A verified solver for classic 9x9 Sudoku puzzles.
//!
//! The solver works on a compact bitmask representation of per-digit
//! candidate sets (`NumSet`), tracks unresolved cells in a swap-remove
//! index set (`SpaceSet`), and fills the board (`Grid`) by recursive
//! backtracking over the most constrained cell found by a greedy scan.
//! The codec converts between the 81-character textual puzzle form and
//! the board's internal state.

pub mod codec;
pub mod grid;
pub mod numset;
pub mod spaceset;
