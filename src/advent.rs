//! What every day's solver offers, and the errors that reading a puzzle
//! input can give.
use vstd::prelude::*;

verus! {

/// Why a puzzle input, or a request for a puzzle, was refused.
#[derive(Debug, Clone, Copy, PartialEq, Eq, Structural)]
pub enum PuzzleError {
    /// A line or a field lacks a part that its shape asks for.
    MissingField,
    /// A token that should be a number is not one, or is out of range.
    InvalidNumber,
    /// A sum or a product does not fit the answer's integer type.
    Overflow,
    /// The first column of a strategy guide holds a letter other than A, B, C.
    InvalidFirstColumn,
    /// The second column of a strategy guide holds a letter other than X, Y, Z.
    InvalidSecondColumn,
    /// A character that the puzzle does not know.
    InvalidCharacter,
    /// The input is too short or too small for the puzzle to have an answer.
    NoAnswer,
    /// A crane move names a stack that does not exist or runs out of crates.
    InvalidMove,
    /// No solver is registered for the requested year.
    UnknownYear,
    /// No solver is registered for the requested day of that year.
    UnknownDay,
}

impl PuzzleError {
    /// A sentence that describes the error.
    pub fn message(&self) -> &'static str {
        match self {
            PuzzleError::MissingField => "Invalid input: a line is missing a field",
            PuzzleError::InvalidNumber => "Invalid input: expected a number",
            PuzzleError::Overflow => "The answer does not fit its integer type",
            PuzzleError::InvalidFirstColumn => "Invalid input: contained a character other than A, B, or C in the first column!",
            PuzzleError::InvalidSecondColumn => "Invalid input: contained a character other than X, Y, or Z in the second column!",
            PuzzleError::InvalidCharacter => "Invalid input: unexpected character",
            PuzzleError::NoAnswer => "The input has no answer",
            PuzzleError::InvalidMove => "A move cannot be carried out on the stacks",
            PuzzleError::UnknownYear => "Specified year has not been implemented yet",
            PuzzleError::UnknownDay => "Specified day to run has not been implemented for that year",
        }
    }
}

/// A parsed puzzle that can give its two answers as text.
pub trait AdventDay {
    fn solve_first_puzzle(&self) -> Result<String, PuzzleError>;

    fn solve_second_puzzle(&self) -> Result<String, PuzzleError>;
}

/// A day's parser: turns the puzzle's input text into the parsed puzzle.
pub trait Parse {
    type Day: AdventDay;

    fn parse_input(&self, puzzle_input: &str) -> Result<Self::Day, PuzzleError>;
}

} // verus!
