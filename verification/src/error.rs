//! Why an input fails to parse. There are two kinds of failure only:
//! lexical ones (an unrecognized symbol, or input that ends before a token
//! is complete) and structural ones (a token stream that does not reduce to
//! exactly one expression). Neither is recoverable: both are terminal for
//! the given input.

use vstd::prelude::*;

verus! {

#[derive(Debug, PartialEq, Eq, Clone, Copy)]
pub enum ParseError {
    /// Lexical: an unrecognized symbol at this character position.
    UnexpectedSymbol { symbol: char, position: usize },
    /// Lexical: the character stream completed before a token was fully
    /// assembled (for example a dangling `k`).
    UnexpectedEnd,
    /// Structural: the tokenized expression could not be reduced to a
    /// single expression.
    Unreduced,
    /// Structural: the final stack item was not an expression.
    NotAnExpression,
}

impl ParseError {
    /// Whether the failure is lexical, as opposed to structural.
    pub open spec fn spec_is_lexical(self) -> bool {
        match self {
            ParseError::UnexpectedSymbol { .. } => true,
            ParseError::UnexpectedEnd => true,
            ParseError::Unreduced => false,
            ParseError::NotAnExpression => false,
        }
    }

    pub fn is_lexical(&self) -> (r: bool)
        ensures
            r == self.spec_is_lexical(),
    {
        match self {
            ParseError::UnexpectedSymbol { .. } => true,
            ParseError::UnexpectedEnd => true,
            ParseError::Unreduced => false,
            ParseError::NotAnExpression => false,
        }
    }
}

} // verus!
