//! The ways in which reading or solving a puzzle fails.

use vstd::prelude::*;

verus! {

/// Why no solved grid is returned.
#[derive(Clone, Copy, Debug, PartialEq, Eq, Structural)]
pub enum SudokuError {
    /// An input line has fewer than nine characters, or a line is missing.
    MalformedInput,
    /// Propagation left some cell without a digit.
    UnsolvableLine,
    /// Every candidate of the chosen cell was tried and failed.
    SearchExhausted,
}

/// The description of each failure.
pub open spec fn message_spec(e: SudokuError) -> Seq<char> {
    match e {
        SudokuError::MalformedInput => "Not enough input"@,
        SudokuError::UnsolvableLine => "Unsolvable"@,
        SudokuError::SearchExhausted => "Unable to find a solution"@,
    }
}

impl SudokuError {
    /// A short description of the failure.
    pub fn message(&self) -> (s: &'static str)
        ensures
            s@ == message_spec(*self),
    {
        match self {
            SudokuError::MalformedInput => "Not enough input",
            SudokuError::UnsolvableLine => "Unsolvable",
            SudokuError::SearchExhausted => "Unable to find a solution",
        }
    }
}

} // verus!
