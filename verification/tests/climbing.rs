//! Tests of the single-pass precedence-climbing evaluator, and its
//! agreement with the two-phase pipeline.

use expr_engine::climb::Expr;
use expr_engine::parse_and_evaluate;

#[test]
fn test_compute_atom() {
    let mut expr = Expr::new("5");
    let result = expr.compute_atom().unwrap();
    assert_eq!(result.numerator(), 5);
    assert_eq!(result.denominator(), 1);
}

#[test]
fn test_compute_expr() {
    let mut expr = Expr::new("5 + 5");
    let result = expr.compute_expr(0).unwrap();
    assert_eq!(result.numerator(), 10);
    assert_eq!(result.denominator(), 1);
}

#[test]
fn test_compute_atom_parenthesized() {
    let mut expr = Expr::new("(2+3)");
    let result = expr.compute_atom().unwrap();
    assert_eq!(result.numerator(), 5);
    assert_eq!(result.denominator(), 1);
}

#[test]
fn test_eval_full_expression() {
    let mut expr = Expr::new("92 + 5 + 5 * 27 - (92 - 12) / 4 + 26");
    let result = expr.eval().unwrap();
    assert_eq!(result.numerator() as f64 / result.denominator() as f64, 238.0);
}

#[test]
fn test_eval_rejects_trailing_tokens() {
    let mut expr = Expr::new("1 + 2 )");
    assert!(expr.eval().is_err());
}

#[test]
fn test_eval_reports_tokenization_error() {
    let mut expr = Expr::new("1 # 2");
    assert!(expr.eval().is_err());
}

#[test]
fn test_climbing_agrees_with_pipeline() {
    let inputs = [
        "1+2*3",
        "2^3^2",
        "8-3-2",
        "(3+4)*2",
        "3 + 4 * 2 / ( 1 - 5 ) ^ 2",
        "92 + 5 + 5 * 27 - (92 - 12) / 4 + 26",
        "1.5*2 + .5",
    ];
    for input in inputs {
        let a = parse_and_evaluate(input).unwrap();
        let mut expr = Expr::new(input);
        let b = expr.eval().unwrap();
        assert_eq!(a.numerator(), b.numerator());
        assert_eq!(a.denominator(), b.denominator());
    }
}
