use vstd::prelude::*;

use crate::lexer::TokenType;

verus! {

/// Every failure of the pipeline. All of them are fatal: the first one stops
/// lexing, parsing or execution. Lines are counted from 0 and columns from 1.
#[derive(Clone, Copy, Debug, PartialEq, Eq, Structural)]
pub enum Error {
    /// A character that starts no token.
    UnexpectedChar { ch: char, line: usize, col: usize },
    /// A `"` with no closing `"` before the end of its line.
    UnterminatedString { line: usize, col: usize },
    /// A token of another kind than the grammar requires at that point.
    UnexpectedToken { expected: TokenType, found: TokenType, line: usize },
    /// A statement that starts with neither `print` nor `$`.
    UnexpectedStatement { found: TokenType, line: usize },
    /// `print` of a name that no earlier assignment has bound.
    UnboundVariable { line: usize },
}

} // verus!
