//! An exhaustive Sudoku solving engine.
//!
//! Given a partially filled 9x9 grid, the engine enumerates every value
//! assignment consistent with the row/column/box uniqueness constraints,
//! pruning the search with constraint propagation and exploring the
//! remaining ambiguity by branching on undetermined cells.

pub mod board;
pub mod search;
pub mod solve;
pub mod topology;

pub use board::Board;
pub use board::Tile;
pub use board::char_to_maxnine;
pub use solve::BoardResult;
pub use solve::SweepOutcome;
pub use topology::get_row;
pub use topology::get_col;
pub use topology::get_sqr;
pub use topology::get_influences;
