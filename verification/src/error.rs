//! The error taxonomy of the engine. Every malformed input is reported to
//! the caller as one of these values; no input aborts the process.

use vstd::prelude::*;

verus! {

/// Mathematical value of a [`ParseError`].
pub ghost enum ErrV {
    /// A character outside digits, `.`, the five operators, parentheses and
    /// whitespace, with its character position.
    InvalidCharacter(char, int),
    /// A numeric lexeme that is not a valid literal (for instance two
    /// decimal points), carried verbatim.
    InvalidNumber(Seq<char>),
    /// A `)` without a matching `(`, or a `(` never closed.
    UnmatchedParenthesis,
    /// An operator with fewer than two operands, or an evaluation that does
    /// not end with exactly one value.
    MalformedExpression,
    /// Division by exactly zero, reported explicitly rather than yielding an
    /// infinite value.
    DivisionByZero,
    /// A result whose unreduced 64-bit components do not fit.
    Overflow,
    /// An exponent that is not an integer; rational arithmetic cannot
    /// represent such a power exactly.
    FractionalExponent,
}

/// What went wrong with one expression. Each variant names the input that
/// produces it; see the contracts of the functions that return them.
#[derive(Debug, PartialEq, Eq)]
pub enum ParseError {
    InvalidCharacter(char, usize),
    InvalidNumber(String),
    UnmatchedParenthesis,
    MalformedExpression,
    DivisionByZero,
    Overflow,
    FractionalExponent,
}

impl View for ParseError {
    type V = ErrV;

    open spec fn view(&self) -> ErrV {
        match self {
            ParseError::InvalidCharacter(c, p) => ErrV::InvalidCharacter(*c, *p as int),
            ParseError::InvalidNumber(s) => ErrV::InvalidNumber(s@),
            ParseError::UnmatchedParenthesis => ErrV::UnmatchedParenthesis,
            ParseError::MalformedExpression => ErrV::MalformedExpression,
            ParseError::DivisionByZero => ErrV::DivisionByZero,
            ParseError::Overflow => ErrV::Overflow,
            ParseError::FractionalExponent => ErrV::FractionalExponent,
        }
    }
}

impl ParseError {
    /// A copy with the same value.
    pub fn duplicate(&self) -> (r: ParseError)
        ensures
            r@ == self@,
    {
        match self {
            ParseError::InvalidCharacter(c, p) => ParseError::InvalidCharacter(*c, *p),
            ParseError::InvalidNumber(s) => ParseError::InvalidNumber(s.clone()),
            ParseError::UnmatchedParenthesis => ParseError::UnmatchedParenthesis,
            ParseError::MalformedExpression => ParseError::MalformedExpression,
            ParseError::DivisionByZero => ParseError::DivisionByZero,
            ParseError::FractionalExponent => ParseError::FractionalExponent,
            ParseError::Overflow => ParseError::Overflow,
        }
    }
}

} // verus!
