//! Tests of the engine's pieces: operator metadata, tokens, the tokenizer,
//! the converter, the evaluator, and rational arithmetic.

use expr_engine::postfix::{evaluate_postfix, to_postfix};
use expr_engine::precedence;
use expr_engine::token::{ASSOC_LEFT, ASSOC_RIGHT};
use expr_engine::tokenizer::{tokenize, Tokenizer};
use expr_engine::Rational;
use expr_engine::Token;

#[test]
fn test_precedence_table() {
    assert_eq!(precedence('+'), 1);
    assert_eq!(precedence('-'), 1);
    assert_eq!(precedence('*'), 2);
    assert_eq!(precedence('/'), 2);
    assert_eq!(precedence('^'), 3);
    assert_eq!(precedence('x'), 0);
}

#[test]
fn test_token_is_operator() {
    assert!(Token::Operator('+').is_operator());
    assert!(!Token::LeftParen.is_operator());
    assert!(!Token::Number(Rational::from_integer(1)).is_operator());
}

#[test]
fn test_token_precedence_and_assoc() {
    assert_eq!(Token::Operator('*').precedence(), 2);
    assert_eq!(Token::LeftParen.precedence(), 0);
    assert_eq!(Token::Operator('+').assoc(), ASSOC_LEFT);
    assert_eq!(Token::Operator('^').assoc(), ASSOC_RIGHT);
}

#[test]
fn test_token_compute() {
    let five = Rational::from_integer(5);
    let three = Rational::from_integer(3);
    let r = Token::Operator('-').compute(five, three).unwrap();
    assert_eq!(r.numerator(), 2);
    assert_eq!(r.denominator(), 1);
    assert!(Token::LeftParen.compute(five, three).is_err());
}

#[test]
fn test_tokenize_classifies() {
    let tokens = tokenize("12 + 3.5*(4)").unwrap();
    assert_eq!(tokens.len(), 7);
    match tokens[0] {
        Token::Number(r) => {
            assert_eq!(r.numerator(), 12);
            assert_eq!(r.denominator(), 1);
        },
        _ => panic!("expected a number"),
    }
    assert!(matches!(tokens[1], Token::Operator('+')));
    match tokens[2] {
        Token::Number(r) => {
            assert_eq!(r.numerator(), 35);
            assert_eq!(r.denominator(), 10);
        },
        _ => panic!("expected a number"),
    }
    assert!(matches!(tokens[3], Token::Operator('*')));
    assert!(matches!(tokens[4], Token::LeftParen));
    assert!(matches!(tokens[6], Token::RightParen));
}

#[test]
fn test_tokenizer_streams() {
    let mut tk = Tokenizer::new(" 1 +2");
    assert!(matches!(tk.next(), Ok(Some(Token::Number(_)))));
    assert!(matches!(tk.next(), Ok(Some(Token::Operator('+')))));
    assert!(matches!(tk.next(), Ok(Some(Token::Number(_)))));
    assert!(matches!(tk.next(), Ok(None)));
}

#[test]
fn test_tokenizer_clear_whitespace() {
    let mut tk = Tokenizer::new("   \t\n");
    tk.clear_whitespace();
    assert!(matches!(tk.next(), Ok(None)));
}

#[test]
fn test_tokenizer_reports_invalid_character() {
    let mut tk = Tokenizer::new("@");
    assert!(tk.next().is_err());
}

#[test]
fn test_postfix_order() {
    let tokens = tokenize("3+4*2").unwrap();
    let postfix = to_postfix(tokens).unwrap();
    assert_eq!(postfix.len(), 5);
    assert!(matches!(postfix[0], Token::Number(_)));
    assert!(matches!(postfix[1], Token::Number(_)));
    assert!(matches!(postfix[2], Token::Number(_)));
    assert!(matches!(postfix[3], Token::Operator('*')));
    assert!(matches!(postfix[4], Token::Operator('+')));
}

#[test]
fn test_evaluate_postfix_directly() {
    let tokens = vec![
        Token::Number(Rational::from_integer(3)),
        Token::Number(Rational::from_integer(4)),
        Token::Operator('+'),
    ];
    let r = evaluate_postfix(tokens).unwrap();
    assert_eq!(r.numerator(), 7);
    assert_eq!(r.denominator(), 1);
}

#[test]
fn test_evaluate_postfix_underflow() {
    let tokens = vec![Token::Number(Rational::from_integer(3)), Token::Operator('+')];
    assert!(evaluate_postfix(tokens).is_err());
}

#[test]
fn test_rational_constructors() {
    let r = Rational::new(7, 2).unwrap();
    assert_eq!(r.numerator(), 7);
    assert_eq!(r.denominator(), 2);
    assert!(Rational::new(1, 0).is_none());
    assert!(Rational::new(1, -2).is_none());
}

#[test]
fn test_rational_checked_ops() {
    let half = Rational::new(1, 2).unwrap();
    let third = Rational::new(1, 3).unwrap();
    let sum = half.checked_add(third).unwrap();
    assert_eq!(sum.numerator(), 5);
    assert_eq!(sum.denominator(), 6);
    let prod = half.checked_mul(third).unwrap();
    assert_eq!(prod.numerator(), 1);
    assert_eq!(prod.denominator(), 6);
    let quot = half.checked_div(third).unwrap();
    assert_eq!(quot.numerator(), 3);
    assert_eq!(quot.denominator(), 2);
    assert!(Rational::from_integer(i64::MAX).checked_add(Rational::from_integer(1)).is_none());
}

#[test]
fn test_rational_as_integer() {
    assert_eq!(Rational::new(6, 2).unwrap().as_integer(), Some(3));
    assert_eq!(Rational::new(-6, 2).unwrap().as_integer(), Some(-3));
    assert_eq!(Rational::new(7, 2).unwrap().as_integer(), None);
}

#[test]
fn test_rational_to_text() {
    assert_eq!(Rational::from_integer(0).to_text(), "0");
    assert_eq!(Rational::from_integer(-12).to_text(), "-12");
    assert_eq!(Rational::new(7, 2).unwrap().to_text(), "7/2");
    assert_eq!(Rational::new(-35, 10).unwrap().to_text(), "-35/10");
    assert_eq!(Rational::from_integer(i64::MIN).to_text(), "-9223372036854775808");
}

#[test]
fn test_token_to_text() {
    assert_eq!(Token::Operator('+').to_text(), "+");
    assert_eq!(Token::LeftParen.to_text(), "(");
    assert_eq!(Token::RightParen.to_text(), ")");
    assert_eq!(Token::Number(Rational::from_integer(42)).to_text(), "42");
}

#[test]
fn test_rational_checked_pow() {
    let two = Rational::from_integer(2);
    let p = two.checked_pow(10).unwrap();
    assert_eq!(p.numerator(), 1024);
    assert_eq!(p.denominator(), 1);
    let n = two.checked_pow(-2).unwrap();
    assert_eq!(n.numerator(), 1);
    assert_eq!(n.denominator(), 4);
    assert!(two.checked_pow(64).is_none());
    let one = Rational::from_integer(1);
    let q = one.checked_pow(i64::MAX).unwrap();
    assert_eq!(q.numerator(), 1);
    assert_eq!(q.denominator(), 1);
}
