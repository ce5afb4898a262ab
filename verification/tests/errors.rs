//! Malformed inputs are reported with the documented error kinds, never a
//! best-effort number and never a panic.

use expr_engine::parse_and_evaluate;
use expr_engine::ParseError;

#[test]
fn test_malformed_inputs_are_errors() {
    assert!(parse_and_evaluate("3 + )").is_err());
    assert!(parse_and_evaluate("(3+4").is_err());
    assert!(parse_and_evaluate("+3").is_err());
}

#[test]
fn test_unmatched_closing_parenthesis() {
    assert!(matches!(parse_and_evaluate("3 + )"), Err(ParseError::UnmatchedParenthesis)));
}

#[test]
fn test_unmatched_opening_parenthesis() {
    assert!(matches!(parse_and_evaluate("(3+4"), Err(ParseError::UnmatchedParenthesis)));
}

#[test]
fn test_leading_operator_is_malformed() {
    assert!(matches!(parse_and_evaluate("+3"), Err(ParseError::MalformedExpression)));
}

#[test]
fn test_adjacent_numbers_are_malformed() {
    assert!(matches!(parse_and_evaluate("3 4"), Err(ParseError::MalformedExpression)));
}

#[test]
fn test_empty_input_is_malformed() {
    assert!(matches!(parse_and_evaluate(""), Err(ParseError::MalformedExpression)));
    assert!(matches!(parse_and_evaluate("   "), Err(ParseError::MalformedExpression)));
}

#[test]
fn test_invalid_character_with_position() {
    match parse_and_evaluate("3 $ 4") {
        Err(ParseError::InvalidCharacter(c, pos)) => {
            assert_eq!(c, '$');
            assert_eq!(pos, 2);
        },
        other => panic!("expected an invalid-character error, got {:?}", other),
    }
}

#[test]
fn test_invalid_number_two_dots() {
    match parse_and_evaluate("1.2.3") {
        Err(ParseError::InvalidNumber(lexeme)) => {
            assert_eq!(lexeme, "1.2.3");
        },
        other => panic!("expected an invalid-number error, got {:?}", other),
    }
}

#[test]
fn test_lone_dot_is_invalid_number() {
    assert!(matches!(parse_and_evaluate("1 + ."), Err(ParseError::InvalidNumber(_))));
}

#[test]
fn test_division_by_zero_is_explicit() {
    assert!(matches!(parse_and_evaluate("1/0"), Err(ParseError::DivisionByZero)));
    assert!(matches!(parse_and_evaluate("5/(3-3)"), Err(ParseError::DivisionByZero)));
}

#[test]
fn test_zero_to_negative_power_is_division_by_zero() {
    assert!(matches!(parse_and_evaluate("0^(0-1)"), Err(ParseError::DivisionByZero)));
}

#[test]
fn test_fractional_exponent_is_reported() {
    assert!(matches!(parse_and_evaluate("2^(1/2)"), Err(ParseError::FractionalExponent)));
}

#[test]
fn test_literal_too_large_overflows() {
    assert!(matches!(parse_and_evaluate("9223372036854775808"), Err(ParseError::Overflow)));
}

#[test]
fn test_power_overflows() {
    assert!(matches!(parse_and_evaluate("2^64"), Err(ParseError::Overflow)));
}

#[test]
fn test_largest_literal_fits() {
    let r = parse_and_evaluate("9223372036854775807").unwrap();
    assert_eq!(r.numerator(), i64::MAX);
    assert_eq!(r.denominator(), 1);
}
