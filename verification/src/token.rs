//! Tokens of the expression grammar, operator metadata, and the meaning of
//! one operator applied to two operands.

use vstd::prelude::*;

verus! {

use crate::error::{ErrV, ParseError};
use crate::strutil::chars_to_string;
use crate::rational::{
    rat_text,
    rat_add,
    rat_div,
    rat_fits,
    rat_int_val,
    rat_is_int,
    rat_mul,
    rat_pow_int,
    rat_sub,
    RatV,
    Rational,
};

/// Left associativity marker returned by [`Token::assoc`].
pub const ASSOC_LEFT: i32 = 0;

/// Right associativity marker returned by [`Token::assoc`].
pub const ASSOC_RIGHT: i32 = 1;

/// Mathematical value of a [`Token`].
pub ghost enum TokenV {
    Number(RatV),
    Operator(char),
    LeftParen,
    RightParen,
}

/// One lexical element of an expression: a numeric literal, one of the five
/// binary operators carried as its symbol, or a parenthesis.
#[derive(Clone, Copy, Debug, PartialEq)]
pub enum Token {
    Number(Rational),
    Operator(char),
    LeftParen,
    RightParen,
}

impl View for Token {
    type V = TokenV;

    open spec fn view(&self) -> TokenV {
        match self {
            Token::Number(r) => TokenV::Number(r@),
            Token::Operator(c) => TokenV::Operator(*c),
            Token::LeftParen => TokenV::LeftParen,
            Token::RightParen => TokenV::RightParen,
        }
    }
}

/// The textual form of a token: the number's text, the operator's symbol,
/// or the parenthesis.
pub open spec fn token_text(t: TokenV) -> Seq<char> {
    match t {
        TokenV::Number(v) => rat_text(v),
        TokenV::Operator(c) => seq![c],
        TokenV::LeftParen => seq!['('],
        TokenV::RightParen => seq![')'],
    }
}

/// The view of a token sequence.
pub open spec fn tokens_view(s: Seq<Token>) -> Seq<TokenV> {
    s.map(|i: int, t: Token| t@)
}

pub proof fn lemma_tokens_view_push(s: Seq<Token>, t: Token)
    ensures
        tokens_view(s.push(t)) == tokens_view(s).push(t@),
{
    assert(tokens_view(s.push(t)) =~= tokens_view(s).push(t@));
}

pub proof fn lemma_tokens_view_empty()
    ensures
        tokens_view(Seq::<Token>::empty()) == Seq::<TokenV>::empty(),
{
    assert(tokens_view(Seq::<Token>::empty()) =~= Seq::<TokenV>::empty());
}

/// The five operator symbols.
pub open spec fn is_op_char(c: char) -> bool {
    c == '+' || c == '-' || c == '*' || c == '/' || c == '^'
}

/// Precedence rank: additive operators bind loosest, exponentiation binds
/// tightest; other characters rank zero.
pub open spec fn spec_prec(c: char) -> int {
    if c == '+' || c == '-' {
        1
    } else if c == '*' || c == '/' {
        2
    } else if c == '^' {
        3
    } else {
        0
    }
}

/// All operators associate to the left except exponentiation.
pub open spec fn left_assoc(c: char) -> bool {
    c != '^'
}

/// The minimal precedence a right-hand operand subexpression of `c` must
/// bind with: one more than `c` for left-associative operators, `c`'s own
/// precedence for right-associative ones.
pub open spec fn next_prec(c: char) -> int {
    if left_assoc(c) {
        spec_prec(c) + 1
    } else {
        spec_prec(c)
    }
}

/// The precedence rank of an operator symbol.
pub fn precedence(op: char) -> (p: u8)
    ensures
        p as int == spec_prec(op),
{
    match op {
        '+' | '-' => 1,
        '*' | '/' => 2,
        '^' => 3,
        _ => 0,
    }
}

/// `Ok` when the unreduced result pair fits in 64 bits, `Overflow` when not.
pub open spec fn fit_result(v: RatV) -> Result<RatV, ErrV> {
    if rat_fits(v) {
        Ok(v)
    } else {
        Err(ErrV::Overflow)
    }
}

/// The meaning of one operator applied to two operands `a op b`:
/// - `+ - *` give the exact rational result, or `Overflow`;
/// - `/` gives the exact quotient, `DivisionByZero` when `b` is zero;
/// - `^` gives the exact power for integer exponents (`DivisionByZero` for
///   a zero base and negative exponent), and `FractionalExponent` otherwise;
/// - any other symbol is `MalformedExpression`.
pub open spec fn apply_op(c: char, a: RatV, b: RatV) -> Result<RatV, ErrV> {
    if c == '+' {
        fit_result(rat_add(a, b))
    } else if c == '-' {
        fit_result(rat_sub(a, b))
    } else if c == '*' {
        fit_result(rat_mul(a, b))
    } else if c == '/' {
        if b.num == 0 {
            Err(ErrV::DivisionByZero)
        } else {
            fit_result(rat_div(a, b))
        }
    } else if c == '^' {
        if !rat_is_int(b) {
            Err(ErrV::FractionalExponent)
        } else if rat_int_val(b) < 0 && a.num == 0 {
            Err(ErrV::DivisionByZero)
        } else {
            fit_result(rat_pow_int(a, rat_int_val(b)))
        }
    } else {
        Err(ErrV::MalformedExpression)
    }
}

/// An executable result agrees with a mathematical one.
pub open spec fn rat_result_matches(r: Result<Rational, ParseError>, s: Result<RatV, ErrV>) -> bool {
    match r {
        Ok(x) => s matches Ok(v) && x@ == v,
        Err(e) => s matches Err(f) && e@ == f,
    }
}

impl Token {
    /// Whether this token is one of the five binary operators.
    pub fn is_operator(&self) -> (r: bool)
        ensures
            r == (self@ is Operator),
    {
        matches!(self, Token::Operator(_))
    }

    /// Precedence rank of this token; zero for non-operators.
    pub fn precedence(&self) -> (p: i32)
        ensures
            p as int == (match self@ {
                TokenV::Operator(c) => spec_prec(c),
                _ => 0,
            }),
    {
        match self {
            Token::Operator(c) => precedence(*c) as i32,
            _ => 0,
        }
    }

    /// Associativity of this token: [`ASSOC_RIGHT`] for `^`, [`ASSOC_LEFT`]
    /// otherwise.
    pub fn assoc(&self) -> (a: i32)
        ensures
            a == (match self@ {
                TokenV::Operator(c) => if left_assoc(c) {
                    ASSOC_LEFT as int
                } else {
                    ASSOC_RIGHT as int
                },
                _ => ASSOC_LEFT as int,
            }),
    {
        match self {
            Token::Operator(c) => if *c == '^' {
                ASSOC_RIGHT
            } else {
                ASSOC_LEFT
            },
            _ => ASSOC_LEFT,
        }
    }

    /// The textual form of this token, per [`token_text`].
    pub fn to_text(&self) -> (r: String)
        ensures
            r@ == token_text(self@),
    {
        match self {
            Token::Number(v) => v.to_text(),
            Token::Operator(c) => one_char_string(*c),
            Token::LeftParen => one_char_string('('),
            Token::RightParen => one_char_string(')'),
        }
    }

    /// Applies this operator token to two operands, per [`apply_op`]; a
    /// non-operator token reports `MalformedExpression`.
    pub fn compute(&self, left: Rational, right: Rational) -> (r: Result<Rational, ParseError>)
        ensures
            rat_result_matches(
                r,
                match self@ {
                    TokenV::Operator(c) => apply_op(c, left@, right@),
                    _ => Err(ErrV::MalformedExpression),
                },
            ),
    {
        match self {
            Token::Operator(c) => compute_op(*c, left, right),
            _ => Err(ParseError::MalformedExpression),
        }
    }
}

/// A string of one character.
fn one_char_string(c: char) -> (r: String)
    ensures
        r@ == seq![c],
{
    let mut out: Vec<char> = Vec::new();
    out.push(c);
    proof {
        assert(out@ =~= seq![c]);
    }
    chars_to_string(&out)
}

/// Applies the operator written `c` to `left` and `right`, per [`apply_op`].
pub fn compute_op(c: char, left: Rational, right: Rational) -> (r: Result<Rational, ParseError>)
    ensures
        rat_result_matches(r, apply_op(c, left@, right@)),
{
    if c == '+' {
        match left.checked_add(right) {
            Some(x) => Ok(x),
            None => Err(ParseError::Overflow),
        }
    } else if c == '-' {
        match left.checked_sub(right) {
            Some(x) => Ok(x),
            None => Err(ParseError::Overflow),
        }
    } else if c == '*' {
        match left.checked_mul(right) {
            Some(x) => Ok(x),
            None => Err(ParseError::Overflow),
        }
    } else if c == '/' {
        if right.numerator() == 0 {
            Err(ParseError::DivisionByZero)
        } else {
            match left.checked_div(right) {
                Some(x) => Ok(x),
                None => Err(ParseError::Overflow),
            }
        }
    } else if c == '^' {
        match right.as_integer() {
            None => Err(ParseError::FractionalExponent),
            Some(e) => {
                if e < 0 && left.numerator() == 0 {
                    Err(ParseError::DivisionByZero)
                } else {
                    match left.checked_pow(e) {
                        Some(x) => Ok(x),
                        None => Err(ParseError::Overflow),
                    }
                }
            },
        }
    } else {
        Err(ParseError::MalformedExpression)
    }
}

} // verus!
