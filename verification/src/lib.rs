use vstd::prelude::*;

mod rng;
pub mod sudoku;
pub mod wordsearch;

verus! {

/// The ways a generation pass can fail.  Every failure is reported to the
/// caller; nothing is retried internally.
#[derive(Clone, Copy, PartialEq, Eq, Structural, Debug)]
pub enum PuzzleError {
    /// A count or a word length lies outside the range the grid supports.
    InvalidArgument,
    /// The backtracking search gave up: its attempt budget ran out or every
    /// candidate was exhausted without completing the grid.
    SearchExhausted,
    /// A word has no legal anchor and direction anywhere in the grid.
    NoPlacementFound,
}

} // verus!
