//! End-to-end tests of the two-phase engine entry point.

use expr_engine::parse_and_evaluate;
use expr_engine::Rational;

fn val(expression: &str) -> f64 {
    let r: Rational = parse_and_evaluate(expression).unwrap();
    r.numerator() as f64 / r.denominator() as f64
}

#[test]
fn test_basic_operations() {
    assert_eq!(val("3+2"), 5.0);
    assert_eq!(val("3*2"), 6.0);
    assert_eq!(val("6/2"), 3.0);
    assert_eq!(val("2^3"), 8.0);
}

#[test]
fn test_complex_expression() {
    assert_eq!(val("3 + 4 * 2 / ( 1 - 5 ) ^ 2"), 3.5);
}

#[test]
fn test_power_right_associative() {
    assert_eq!(val("2^3^2"), 512.0);
    assert_ne!(val("2^3^2"), 64.0);
}

#[test]
fn test_subtraction_left_associative() {
    assert_eq!(val("8-3-2"), 3.0);
    assert_ne!(val("8-3-2"), 7.0);
}

#[test]
fn test_precedence_binds_multiplication_first() {
    assert_eq!(val("3+4*2"), 11.0);
}

#[test]
fn test_parentheses_override_precedence() {
    assert_eq!(val("(3+4)*2"), 14.0);
}

#[test]
fn test_whitespace_insensitive() {
    let spaced = parse_and_evaluate("3 + 4 * 2").unwrap();
    let compact = parse_and_evaluate("3+4*2").unwrap();
    assert_eq!(spaced.numerator(), compact.numerator());
    assert_eq!(spaced.denominator(), compact.denominator());
}

#[test]
fn test_tabs_and_newlines_are_whitespace() {
    assert_eq!(val("3\t+\n4 * 2\r"), 11.0);
}

#[test]
fn test_regression_full_expression() {
    assert_eq!(val("92 + 5 + 5 * 27 - (92 - 12) / 4 + 26"), 238.0);
}

#[test]
fn test_repeated_evaluation_is_identical() {
    let first = parse_and_evaluate("92 + 5 + 5 * 27 - (92 - 12) / 4 + 26").unwrap();
    let second = parse_and_evaluate("92 + 5 + 5 * 27 - (92 - 12) / 4 + 26").unwrap();
    assert_eq!(first.numerator(), second.numerator());
    assert_eq!(first.denominator(), second.denominator());
}

#[test]
fn test_decimal_literals() {
    assert_eq!(val("1.5*2"), 3.0);
    assert_eq!(val("3."), 3.0);
    assert_eq!(val(".5"), 0.5);
}

#[test]
fn test_decimal_addition_is_exact() {
    let r = parse_and_evaluate("0.1+0.2").unwrap();
    assert_eq!(r.numerator(), 30);
    assert_eq!(r.denominator(), 100);
}

#[test]
fn test_negative_exponent_via_subexpression() {
    assert_eq!(val("2^(1-3)"), 0.25);
}

#[test]
fn test_nested_parentheses() {
    assert_eq!(val("((2))"), 2.0);
    assert_eq!(val("2*(3+(4-1))"), 12.0);
}

#[test]
fn test_single_number() {
    assert_eq!(val("42"), 42.0);
    assert_eq!(val("  7  "), 7.0);
}
