//! Crossword slot geometry, crossing constraints and a propagation solver.

pub mod board;
pub mod dictionary;
pub mod grid;
pub mod text;
pub mod word;

pub use crate::board::{Board, ConstructionError, Crossing, State, WordStyle};
pub use crate::dictionary::Dictionary;
pub use crate::grid::parse_grid;
pub use crate::word::{Orientation, Word, WordIter};
