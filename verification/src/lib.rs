//! An arithmetic expression engine: a tokenizer for infix expressions over
//! decimal literals, the five binary operators `+ - * / ^` and parentheses,
//! an infix-to-postfix converter (shunting yard), and a postfix evaluator.
//! Results are exact rationals with 64-bit numerator and denominator.

use vstd::prelude::*;

pub mod climb;
pub mod error;
pub mod feed;
pub mod grammar;
pub mod laws;
pub mod number;
pub mod postfix;
pub mod rational;
pub mod signal;
pub mod strutil;
pub mod token;
pub mod tokenizer;

pub use error::ParseError;
pub use feed::sanitize_string;
pub use rational::Rational;
pub use signal::TradeSignal;
pub use token::{precedence, Token};

verus! {

use crate::error::ErrV;
use crate::postfix::{evaluate_postfix, spec_evaluate_postfix, spec_to_postfix, to_postfix};
use crate::rational::RatV;
use crate::token::rat_result_matches;
use crate::tokenizer::{spec_tokenize, tokenize};

/// What the whole engine yields on one expression text: tokenize, convert
/// to postfix, evaluate; the first error in that order is the result.
pub open spec fn spec_parse_and_evaluate(s: Seq<char>) -> Result<RatV, ErrV> {
    match spec_tokenize(s) {
        Err(e) => Err(e),
        Ok(ts) => match spec_to_postfix(ts) {
            Err(e) => Err(e),
            Ok(p) => spec_evaluate_postfix(p),
        },
    }
}

/// The single entry point of the engine: parses and evaluates one infix
/// expression over decimal literals, `+ - * / ^` and parentheses, honoring
/// precedence and associativity, per [`spec_parse_and_evaluate`].
pub fn parse_and_evaluate(expression: &str) -> (r: Result<Rational, ParseError>)
    ensures
        rat_result_matches(r, spec_parse_and_evaluate(expression@)),
{
    match tokenize(expression) {
        Err(e) => Err(e),
        Ok(ts) => match to_postfix(ts) {
            Err(e) => Err(e),
            Ok(p) => evaluate_postfix(p),
        },
    }
}

} // verus!
