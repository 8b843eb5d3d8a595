pub mod bignum;
pub mod dictionary;
pub mod grid;
pub mod util;

pub use dictionary::Distribution;
pub use dictionary::LetterDistribution;
pub use grid::index::Coordinate;
pub use grid::index::GridIndex;
pub use grid::Grid;

use vstd::prelude::*;

verus! {

/// The recoverable failures that the grid engine reports to its callers.
#[derive(Debug, Clone, PartialEq, Eq)]
pub enum Error {
    /// The placed tiles do not form a single connected region.
    WordsNotConnected,
    /// A scanned word is absent from the vocabulary; carries the word.
    InvalidWord(String),
    /// A pile draw requested more tiles than remain.
    NoMoreTiles,
    /// A new round was requested while the caller still holds tiles.
    HandHasTiles,
}

} // verus!
