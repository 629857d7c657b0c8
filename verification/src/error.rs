//! Errors used in the crate.

use vstd::prelude::*;
use vstd::std_specs::convert::FromSpecImpl;

verus! {

/// The error type of [`std::io`], carried through as an opaque value: nothing
/// is known of what it holds.
#[verifier::external_type_specification]
#[verifier::external_body]
pub struct ExIoError(std::io::Error);

/// The error type of any lexical analysis.
#[derive(Debug, Clone, Copy, PartialEq, Eq)]
pub enum LexerError {
    /// Source ended unexpectedly.
    UnexpectedEOF,
    /// Closure with no closing bracket.
    UnclosedBlock,
    /// Syntax error.
    SyntaxError(char),
}

/// The error type of any interpreter error.
#[derive(Debug)]
pub enum BrainfuckError {
    /// Any IO error.
    IOError(std::io::Error),
    /// Error with lexical analysis.
    ParserError(LexerError),
    /// Evaluation was cut off: the fuel ran out when another loop iteration
    /// was due.
    OutOfFuel,
}

impl From<std::io::Error> for BrainfuckError {
    fn from(e: std::io::Error) -> (error: Self) {
        Self::IOError(e)
    }
}

impl FromSpecImpl<std::io::Error> for BrainfuckError {
    open spec fn obeys_from_spec() -> bool {
        true
    }

    open spec fn from_spec(e: std::io::Error) -> Self {
        BrainfuckError::IOError(e)
    }
}

impl From<LexerError> for BrainfuckError {
    fn from(e: LexerError) -> (error: Self) {
        Self::ParserError(e)
    }
}

impl FromSpecImpl<LexerError> for BrainfuckError {
    open spec fn obeys_from_spec() -> bool {
        true
    }

    open spec fn from_spec(e: LexerError) -> Self {
        BrainfuckError::ParserError(e)
    }
}

} // verus!
