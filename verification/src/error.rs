//! The ways in which a line of input can fail.

use vstd::prelude::*;

verus! {

/// Why a line was not evaluated.
#[derive(Clone, Copy, Debug, PartialEq, Eq, Structural)]
pub enum EvalError {
    /// A `)` stands where no bracket is open.
    UnmatchedClosingBracket,
    /// An operand is neither a variable nor a literal that the value type reads.
    InvalidLiteral,
    /// Two values whose units differ were added or subtracted.
    UnitMismatch,
    /// The target of an assignment is no valid name.
    InvalidVariableName,
    /// A line holds more than one `=`.
    TooManyAssignments,
}

impl EvalError {
    /// The message shown for this error.
    pub fn message(&self) -> (text: &'static str)
        ensures
            text@ == match *self {
                EvalError::UnmatchedClosingBracket => "Unmatched closing bracket"@,
                EvalError::InvalidLiteral => "Invalid literal"@,
                EvalError::UnitMismatch => "Units don't match"@,
                EvalError::InvalidVariableName =>
                    "variable names must be alphanumeric and start with an alphabetic character"@,
                EvalError::TooManyAssignments => "too many equals signs"@,
            },
    {
        match self {
            EvalError::UnmatchedClosingBracket => "Unmatched closing bracket",
            EvalError::InvalidLiteral => "Invalid literal",
            EvalError::UnitMismatch => "Units don't match",
            EvalError::InvalidVariableName =>
                "variable names must be alphanumeric and start with an alphabetic character",
            EvalError::TooManyAssignments => "too many equals signs",
        }
    }
}

} // verus!
