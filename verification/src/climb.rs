//! The single-pass precedence-climbing evaluator.
//!
//! [`Expr`] evaluates the token stream directly: an atom is a number or a
//! parenthesized expression; after an atom, every operator whose precedence
//! reaches the current minimum is applied, with its right operand evaluated
//! at a higher minimum (one more for left-associative operators, the same
//! for right-associative `^`). It computes the same values as the two-phase
//! pipeline on every syntactically valid input.

use vstd::prelude::*;

verus! {

use crate::error::{ErrV, ParseError};
use crate::rational::{RatV, Rational};
use crate::token::{
    apply_op,
    compute_op,
    next_prec,
    precedence,
    spec_prec,
    tokens_view,
    Token,
    TokenV,
};
use crate::tokenizer::{spec_tokenize, tokenize};

/// Climbing, at an atom: a number, or a parenthesized expression that must
/// be followed by `)`. `Ok` carries the value and the position just past
/// the atom.
pub open spec fn climb_atom(toks: Seq<TokenV>, i: int) -> Result<(RatV, int), ErrV>
    decreases toks.len() - i, 0int,
        when 0 <= i <= toks.len()
{
    if i >= toks.len() {
        Err(ErrV::MalformedExpression)
    } else {
        match toks[i] {
            TokenV::Number(v) => Ok((v, i + 1)),
            TokenV::LeftParen => match climb_expr(toks, i + 1, 1) {
                Err(e) => Err(e),
                Ok(p) => {
                    if 0 <= p.1 < toks.len() && toks[p.1] is RightParen {
                        Ok((p.0, p.1 + 1))
                    } else {
                        Err(ErrV::UnmatchedParenthesis)
                    }
                },
            },
            _ => Err(ErrV::MalformedExpression),
        }
    }
}

/// Climbing, at an expression with minimum operator precedence `min_prec`:
/// an atom followed by the operator chain of [`climb_tail`].
pub open spec fn climb_expr(toks: Seq<TokenV>, i: int, min_prec: int) -> Result<(RatV, int), ErrV>
    decreases toks.len() - i, 1int,
        when 0 <= i <= toks.len()
{
    match climb_atom(toks, i) {
        Err(e) => Err(e),
        Ok(p) => {
            // The bound check discharges termination; lemma_climb_atom_bounds
            // shows the failing branch is never taken.
            if i < p.1 <= toks.len() {
                climb_tail(toks, p.0, p.1, min_prec)
            } else {
                Err(ErrV::MalformedExpression)
            }
        },
    }
}

/// Climbing, folding operators into `lhs`: each operator with precedence at
/// least `min_prec` takes a right operand climbed at [`next_prec`] and is
/// applied; anything else ends the chain.
pub open spec fn climb_tail(toks: Seq<TokenV>, lhs: RatV, i: int, min_prec: int) -> Result<
    (RatV, int),
    ErrV,
>
    decreases toks.len() - i, 2int,
        when 0 <= i <= toks.len()
{
    if i >= toks.len() {
        Ok((lhs, i))
    } else {
        match toks[i] {
            TokenV::Operator(c) => {
                if spec_prec(c) >= min_prec {
                    match climb_expr(toks, i + 1, next_prec(c)) {
                        Err(e) => Err(e),
                        Ok(p) => match apply_op(c, lhs, p.0) {
                            Err(e) => Err(e),
                            Ok(v) => {
                                // Bound check for termination, as in climb_expr.
                                if i < p.1 <= toks.len() {
                                    climb_tail(toks, v, p.1, min_prec)
                                } else {
                                    Err(ErrV::MalformedExpression)
                                }
                            },
                        },
                    }
                } else {
                    Ok((lhs, i))
                }
            },
            _ => Ok((lhs, i)),
        }
    }
}

/// What the climbing engine yields on a whole token sequence: the climbed
/// value, with any tokens left over malformed.
pub open spec fn climb_eval(toks: Seq<TokenV>) -> Result<RatV, ErrV> {
    match climb_expr(toks, 0, 1) {
        Err(e) => Err(e),
        Ok(p) => {
            if p.1 == toks.len() {
                Ok(p.0)
            } else {
                Err(ErrV::MalformedExpression)
            }
        },
    }
}

/// A successful atom consumes at least one token and stays in bounds.
pub proof fn lemma_climb_atom_bounds(toks: Seq<TokenV>, i: int)
    requires
        0 <= i <= toks.len(),
    ensures
        climb_atom(toks, i) matches Ok(p) ==> i < p.1 <= toks.len(),
    decreases toks.len() - i, 0int,
{
    if i < toks.len() && toks[i] is LeftParen {
        lemma_climb_expr_bounds(toks, i + 1, 1);
    }
}

/// A successful expression consumes at least one token and stays in bounds.
pub proof fn lemma_climb_expr_bounds(toks: Seq<TokenV>, i: int, min_prec: int)
    requires
        0 <= i <= toks.len(),
    ensures
        climb_expr(toks, i, min_prec) matches Ok(p) ==> i < p.1 <= toks.len(),
    decreases toks.len() - i, 1int,
{
    lemma_climb_atom_bounds(toks, i);
    let a = climb_atom(toks, i);
    if a is Ok {
        let p = a->Ok_0;
        if i < p.1 <= toks.len() {
            lemma_climb_tail_bounds(toks, p.0, p.1, min_prec);
        }
    }
}

/// A successful operator chain never moves backwards and stays in bounds.
pub proof fn lemma_climb_tail_bounds(toks: Seq<TokenV>, lhs: RatV, i: int, min_prec: int)
    requires
        0 <= i <= toks.len(),
    ensures
        climb_tail(toks, lhs, i, min_prec) matches Ok(p) ==> i <= p.1 <= toks.len(),
    decreases toks.len() - i, 2int,
{
    if i < toks.len() && (toks[i] matches TokenV::Operator(c) && spec_prec(c) >= min_prec) {
        let c = toks[i]->Operator_0;
        lemma_climb_expr_bounds(toks, i + 1, next_prec(c));
        let e = climb_expr(toks, i + 1, next_prec(c));
        if e is Ok {
            let p = e->Ok_0;
            if apply_op(c, lhs, p.0) is Ok && i < p.1 <= toks.len() {
                lemma_climb_tail_bounds(toks, apply_op(c, lhs, p.0)->Ok_0, p.1, min_prec);
            }
        }
    }
}

/// The single-pass engine: a tokenizer run eagerly over the input, a
/// cursor, and the tokenization error, if any, held for the evaluation
/// calls to report.
pub struct Expr {
    tokens: Vec<Token>,
    pos: usize,
    lex_err: Option<ParseError>,
}

impl Expr {
    #[verifier::type_invariant]
    spec fn type_inv(self) -> bool {
        self.pos <= self.tokens@.len()
    }

    /// The tokens being evaluated.
    pub closed spec fn toks(self) -> Seq<TokenV> {
        tokens_view(self.tokens@)
    }

    /// The cursor, in tokens.
    pub closed spec fn position(self) -> int {
        self.pos as int
    }

    /// The tokenization error the input had, if any.
    pub closed spec fn lex_error(self) -> Option<ErrV> {
        match self.lex_err {
            Some(e) => Some(e@),
            None => None,
        }
    }

    /// An evaluator over the tokens of `input`: tokenization happens here,
    /// and a tokenization error is reported by the first evaluating call.
    pub fn new(input: &str) -> (r: Expr)
        ensures
            r.position() == 0,
            match spec_tokenize(input@) {
                Ok(ts) => r.toks() == ts && r.lex_error() is None,
                Err(e) => r.lex_error() == Some(e),
            },
    {
        match tokenize(input) {
            Ok(ts) => Expr { tokens: ts, pos: 0, lex_err: None },
            Err(e) => Expr { tokens: Vec::new(), pos: 0, lex_err: Some(e) },
        }
    }

    /// Evaluates the whole expression: the climbed value, per
    /// [`climb_eval`]; leftover tokens, like the input's tokenization
    /// error, are reported.
    pub fn eval(&mut self) -> (r: Result<Rational, ParseError>)
        ensures
            final (self).toks() == old(self).toks(),
            old(self).lex_error() matches Some(e) ==> (r matches Err(f) && f@ == e),
            old(self).lex_error() is None && old(self).position() == 0 ==> (match r {
                Ok(x) => climb_eval(old(self).toks()) == Ok::<RatV, ErrV>(x@),
                Err(e) => climb_eval(old(self).toks()) == Err::<RatV, ErrV>(e@),
            }),
    {
        let ghost tv = self.toks();
        match self.compute_expr(1) {
            Err(e) => Err(e),
            Ok(v) => {
                proof {
                    use_type_invariant(&*self);
                }
                if self.pos < self.tokens.len() {
                    Err(ParseError::MalformedExpression)
                } else {
                    Ok(v)
                }
            },
        }
    }

    /// Evaluates one expression at the cursor with minimum operator
    /// precedence `min_prec`, per [`climb_expr`], and leaves the cursor
    /// just past it.
    pub fn compute_expr(&mut self, min_prec: u8) -> (r: Result<Rational, ParseError>)
        ensures
            final (self).toks() == old(self).toks(),
            final (self).lex_error() == old(self).lex_error(),
            old(self).lex_error() matches Some(e) ==> (r matches Err(f) && f@ == e),
            old(self).lex_error() is None ==> (match r {
                Ok(x) => climb_expr(old(self).toks(), old(self).position(), min_prec as int)
                    matches Ok(p) && p.0 == x@ && final (self).position() == p.1 && old(
                    self,
                ).position() < p.1 <= old(self).toks().len(),
                Err(e) => climb_expr(old(self).toks(), old(self).position(), min_prec as int)
                    matches Err(f) && e@ == f,
            }),
        decreases self.toks().len() - self.position(), 1int,
    {
        proof {
            use_type_invariant(&*self);
            lemma_climb_expr_bounds(self.toks(), self.position(), min_prec as int);
            lemma_climb_atom_bounds(self.toks(), self.position());
        }
        let ghost tv = self.toks();
        let ghost p0 = self.position();
        let mut lhs = match self.compute_atom() {
            Err(e) => {
                return Err(e);
            },
            Ok(v) => v,
        };
        proof {
            assert(self.lex_err is None);
        }
        let n = self.tokens.len();
        loop
            invariant_except_break
                self.lex_err is None,
                old(self).lex_error() is None,
                tv == old(self).toks(),
                p0 == old(self).position(),
                self.toks() == tv,
                n == self.tokens@.len(),
                0 <= p0 < self.pos <= n,
                climb_expr(tv, p0, min_prec as int) == climb_tail(
                    tv,
                    lhs@,
                    self.position(),
                    min_prec as int,
                ),
            ensures
                self.lex_err is None,
                old(self).lex_error() is None,
                tv == old(self).toks(),
                p0 == old(self).position(),
                self.toks() == tv,
                0 <= p0 < self.pos <= n,
                n == self.tokens@.len(),
                climb_expr(tv, p0, min_prec as int) == Ok::<(RatV, int), ErrV>(
                    (lhs@, self.position()),
                ),
            decreases n - self.pos,
        {
            proof {
                use_type_invariant(&*self);
            }
            let cont: bool = if self.pos < n {
                should_continue(self.tokens[self.pos], min_prec)
            } else {
                false
            };
            if !cont {
                proof {
                    assert(climb_tail(tv, lhs@, self.position(), min_prec as int)
                        == Ok::<(RatV, int), ErrV>((lhs@, self.position())));
                }
                break ;
            }
            let c = match self.tokens[self.pos] {
                Token::Operator(c) => c,
                _ => {
                    proof {
                        assert(false);
                    }
                    '+'
                },
            };
            let np: u8 = if c == '^' {
                3
            } else {
                precedence(c) + 1
            };
            proof {
                assert(np as int == next_prec(c));
            }
            self.pos = self.pos + 1;
            let ghost pos_op = self.position();
            proof {
                lemma_climb_expr_bounds(tv, pos_op, np as int);
            }
            let rhs = match self.compute_expr(np) {
                Err(e) => {
                    return Err(e);
                },
                Ok(v) => v,
            };
            match compute_op(c, lhs, rhs) {
                Err(e) => {
                    return Err(e);
                },
                Ok(v) => {
                    lhs = v;
                },
            }
        }
        Ok(lhs)
    }

    /// Evaluates the atom at the cursor, per [`climb_atom`], and leaves the
    /// cursor just past it.
    pub fn compute_atom(&mut self) -> (r: Result<Rational, ParseError>)
        ensures
            final (self).toks() == old(self).toks(),
            final (self).lex_error() == old(self).lex_error(),
            old(self).lex_error() matches Some(e) ==> (r matches Err(f) && f@ == e),
            old(self).lex_error() is None ==> (match r {
                Ok(x) => climb_atom(old(self).toks(), old(self).position()) matches Ok(p) && p.0
                    == x@ && final (self).position() == p.1 && old(self).position() < p.1 <= old(
                    self,
                ).toks().len(),
                Err(e) => climb_atom(old(self).toks(), old(self).position()) matches Err(f) && e@
                    == f,
            }),
        decreases self.toks().len() - self.position(), 0int,
    {
        proof {
            use_type_invariant(&*self);
            lemma_climb_atom_bounds(self.toks(), self.position());
        }
        match &self.lex_err {
            Some(e) => {
                return Err(e.duplicate());
            },
            None => {},
        }
        let n = self.tokens.len();
        if self.pos >= n {
            return Err(ParseError::MalformedExpression);
        }
        let t = self.tokens[self.pos];
        match t {
            Token::Number(v) => {
                self.pos = self.pos + 1;
                Ok(v)
            },
            Token::LeftParen => {
                let ghost tv = self.toks();
                self.pos = self.pos + 1;
                proof {
                    lemma_climb_expr_bounds(tv, self.position(), 1);
                }
                match self.compute_expr(1) {
                    Err(e) => Err(e),
                    Ok(v) => {
                        proof {
                            use_type_invariant(&*self);
                        }
                        if self.pos < self.tokens.len() {
                            let closing = self.tokens[self.pos];
                            match closing {
                                Token::RightParen => {
                                    self.pos = self.pos + 1;
                                    Ok(v)
                                },
                                _ => Err(ParseError::UnmatchedParenthesis),
                            }
                        } else {
                            Err(ParseError::UnmatchedParenthesis)
                        }
                    },
                }
            },
            _ => Err(ParseError::MalformedExpression),
        }
    }
}

/// Whether the climb at minimum precedence `min_prec` continues at token
/// `t`: an operator binding at least that tightly.
fn should_continue(t: Token, min_prec: u8) -> (b: bool)
    ensures
        b == (t@ matches TokenV::Operator(c) && spec_prec(c) >= min_prec as int),
{
    match t {
        Token::Operator(c) => precedence(c) >= min_prec,
        _ => false,
    }
}

} // verus!
