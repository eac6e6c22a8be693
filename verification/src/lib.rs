//! Nonogram puzzle library: grids and clues, a bit-parallel line solver,
//! constraint propagation, probing and complete solvers, and the grid codecs.
pub mod cli;
pub mod codec;
pub mod format;
pub mod convert;
pub mod solver;
pub mod types;

pub use codec::{grid_to_id, grid_to_puzzle, id_to_grid, CodecError};
pub use types::{Cell, Clue, Grid, Puzzle};
