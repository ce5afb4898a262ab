//! The reference grammar of expressions: parse trees, their evaluation and
//! their postfix form, and a reference parser that mirrors precedence
//! climbing but builds the tree instead of computing.
//!
//! The climbing engine is proved to return, on every input the grammar
//! accepts, exactly the evaluation of the parse tree; the laws about the
//! two-phase pipeline build on the same trees.

use vstd::prelude::*;

verus! {

use crate::error::ErrV;
use crate::rational::RatV;
use crate::climb::{climb_atom, climb_expr, climb_tail};
use crate::token::{apply_op, is_op_char, next_prec, spec_prec, TokenV};

/// A parse tree: a literal, or an operator applied to two subtrees.
pub ghost enum Exp {
    Num(RatV),
    Bin(char, Box<Exp>, Box<Exp>),
}

/// Evaluation of a parse tree: left subtree first, then right, then the
/// operator; the first error wins.
pub open spec fn eval_exp(e: Exp) -> Result<RatV, ErrV>
    decreases e,
{
    match e {
        Exp::Num(v) => Ok(v),
        Exp::Bin(c, l, r) => match eval_exp(*l) {
            Err(er) => Err(er),
            Ok(a) => match eval_exp(*r) {
                Err(er) => Err(er),
                Ok(b) => apply_op(c, a, b),
            },
        },
    }
}

/// The postfix (reverse Polish) form of a parse tree: both operand forms,
/// then the operator.
pub open spec fn post_exp(e: Exp) -> Seq<TokenV>
    decreases e,
{
    match e {
        Exp::Num(v) => seq![TokenV::Number(v)],
        Exp::Bin(c, l, r) => post_exp(*l) + post_exp(*r) + seq![TokenV::Operator(c)],
    }
}

/// Every operator in the tree is one of the five operator symbols.
pub open spec fn exp_wf(e: Exp) -> bool
    decreases e,
{
    match e {
        Exp::Num(_) => true,
        Exp::Bin(c, l, r) => is_op_char(c) && exp_wf(*l) && exp_wf(*r),
    }
}

/// Reference parse of an atom: like [`climb_atom`], but building the tree.
pub open spec fn parse_atom(toks: Seq<TokenV>, i: int) -> Result<(Exp, int), ErrV>
    decreases toks.len() - i, 0int,
        when 0 <= i <= toks.len()
{
    if i >= toks.len() {
        Err(ErrV::MalformedExpression)
    } else {
        match toks[i] {
            TokenV::Number(v) => Ok((Exp::Num(v), i + 1)),
            TokenV::LeftParen => match parse_expr(toks, i + 1, 1) {
                Err(e) => Err(e),
                Ok(p) => {
                    if 0 <= p.1 < toks.len() && toks[p.1] is RightParen {
                        Ok((p.0, p.1 + 1))
                    } else {
                        Err(ErrV::UnmatchedParenthesis)
                    }
                },
            },
            _ => Err(ErrV::MalformedExpression),
        }
    }
}

/// Reference parse of an expression: like [`climb_expr`].
pub open spec fn parse_expr(toks: Seq<TokenV>, i: int, min_prec: int) -> Result<(Exp, int), ErrV>
    decreases toks.len() - i, 1int,
        when 0 <= i <= toks.len()
{
    match parse_atom(toks, i) {
        Err(e) => Err(e),
        Ok(p) => {
            // Bound check for termination; lemma_parse_atom_bounds shows the
            // failing branch is never taken.
            if i < p.1 <= toks.len() {
                parse_tail(toks, p.0, p.1, min_prec)
            } else {
                Err(ErrV::MalformedExpression)
            }
        },
    }
}

/// Reference parse of an operator chain: like [`climb_tail`], folding each
/// operator into the tree.
pub open spec fn parse_tail(toks: Seq<TokenV>, lhs: Exp, i: int, min_prec: int) -> Result<
    (Exp, int),
    ErrV,
>
    decreases toks.len() - i, 2int,
        when 0 <= i <= toks.len()
{
    if i >= toks.len() {
        Ok((lhs, i))
    } else {
        match toks[i] {
            TokenV::Operator(c) => {
                if spec_prec(c) >= min_prec {
                    match parse_expr(toks, i + 1, next_prec(c)) {
                        Err(e) => Err(e),
                        Ok(p) => {
                            // Bound check for termination, as in parse_expr.
                            if i < p.1 <= toks.len() {
                                parse_tail(
                                    toks,
                                    Exp::Bin(c, Box::new(lhs), Box::new(p.0)),
                                    p.1,
                                    min_prec,
                                )
                            } else {
                                Err(ErrV::MalformedExpression)
                            }
                        },
                    }
                } else {
                    Ok((lhs, i))
                }
            },
            _ => Ok((lhs, i)),
        }
    }
}

/// A successful atom parse consumes at least one token and stays in
/// bounds, and its tree is well formed.
pub proof fn lemma_parse_atom_bounds(toks: Seq<TokenV>, i: int)
    requires
        0 <= i <= toks.len(),
    ensures
        parse_atom(toks, i) matches Ok(p) ==> i < p.1 <= toks.len() && exp_wf(p.0),
    decreases toks.len() - i, 0int,
{
    if i < toks.len() && toks[i] is LeftParen {
        lemma_parse_expr_bounds(toks, i + 1, 1);
    }
}

/// A successful expression parse consumes at least one token and stays in
/// bounds, and its tree is well formed.
pub proof fn lemma_parse_expr_bounds(toks: Seq<TokenV>, i: int, min_prec: int)
    requires
        0 <= i <= toks.len(),
    ensures
        parse_expr(toks, i, min_prec) matches Ok(p) ==> i < p.1 <= toks.len() && (min_prec >= 1
            ==> exp_wf(p.0)),
    decreases toks.len() - i, 1int,
{
    lemma_parse_atom_bounds(toks, i);
    let a = parse_atom(toks, i);
    if a is Ok {
        let p = a->Ok_0;
        if i < p.1 <= toks.len() {
            lemma_parse_tail_bounds(toks, p.0, p.1, min_prec);
        }
    }
}

/// A successful chain parse never moves backwards, stays in bounds, and
/// keeps the tree well formed.
pub proof fn lemma_parse_tail_bounds(toks: Seq<TokenV>, lhs: Exp, i: int, min_prec: int)
    requires
        0 <= i <= toks.len(),
    ensures
        parse_tail(toks, lhs, i, min_prec) matches Ok(p) ==> i <= p.1 <= toks.len() && (min_prec
            >= 1 && exp_wf(lhs) ==> exp_wf(p.0)),
    decreases toks.len() - i, 2int,
{
    if i < toks.len() && (toks[i] matches TokenV::Operator(c) && spec_prec(c) >= min_prec) {
        let c = toks[i]->Operator_0;
        lemma_parse_expr_bounds(toks, i + 1, next_prec(c));
        let e = parse_expr(toks, i + 1, next_prec(c));
        if e is Ok {
            let p = e->Ok_0;
            if i < p.1 <= toks.len() {
                lemma_parse_tail_bounds(
                    toks,
                    Exp::Bin(c, Box::new(lhs), Box::new(p.0)),
                    p.1,
                    min_prec,
                );
            }
        }
    }
}

/// Where a successful expression parse stops, no operator of reachable
/// precedence stands: the next token, if an operator, binds too loosely.
pub proof fn lemma_parse_tail_stop(toks: Seq<TokenV>, lhs: Exp, i: int, min_prec: int)
    requires
        0 <= i <= toks.len(),
    ensures
        parse_tail(toks, lhs, i, min_prec) matches Ok(p) ==> (p.1 < toks.len() && toks[p.1]
            is Operator ==> spec_prec(toks[p.1]->Operator_0) < min_prec),
    decreases toks.len() - i, 2int,
{
    if i < toks.len() && (toks[i] matches TokenV::Operator(c) && spec_prec(c) >= min_prec) {
        let c = toks[i]->Operator_0;
        let e = parse_expr(toks, i + 1, next_prec(c));
        if e is Ok {
            let p = e->Ok_0;
            if i < p.1 <= toks.len() {
                lemma_parse_tail_stop(
                    toks,
                    Exp::Bin(c, Box::new(lhs), Box::new(p.0)),
                    p.1,
                    min_prec,
                );
            }
        }
    }
}

/// The stop property lifted to a whole expression parse.
pub proof fn lemma_parse_expr_stop(toks: Seq<TokenV>, i: int, min_prec: int)
    requires
        0 <= i <= toks.len(),
    ensures
        parse_expr(toks, i, min_prec) matches Ok(p) ==> (p.1 < toks.len() && toks[p.1] is Operator
            ==> spec_prec(toks[p.1]->Operator_0) < min_prec),
{
    lemma_parse_atom_bounds(toks, i);
    let a = parse_atom(toks, i);
    if a is Ok {
        let p = a->Ok_0;
        if i < p.1 <= toks.len() {
            lemma_parse_tail_stop(toks, p.0, p.1, min_prec);
        }
    }
}

/// `Ok` pairs a value with a position; errors pass through.
pub open spec fn res_map(r: Result<RatV, ErrV>, j: int) -> Result<(RatV, int), ErrV> {
    match r {
        Ok(v) => Ok((v, j)),
        Err(e) => Err(e),
    }
}

/// The climbing engine at an atom computes exactly the evaluation of the
/// reference parse tree, and fails whenever the reference parse fails.
pub proof fn lemma_parse_climb_atom(toks: Seq<TokenV>, i: int)
    requires
        0 <= i <= toks.len(),
    ensures
        parse_atom(toks, i) matches Ok(p) ==> climb_atom(toks, i) == res_map(eval_exp(p.0), p.1),
        parse_atom(toks, i) is Err ==> climb_atom(toks, i) is Err,
    decreases toks.len() - i, 0int,
{
    if i < toks.len() && toks[i] is LeftParen {
        lemma_parse_expr_bounds(toks, i + 1, 1);
        lemma_parse_climb_expr(toks, i + 1, 1);
    }
}

/// The climbing engine at an expression computes exactly the evaluation of
/// the reference parse tree, and fails whenever the reference parse fails.
pub proof fn lemma_parse_climb_expr(toks: Seq<TokenV>, i: int, min_prec: int)
    requires
        0 <= i <= toks.len(),
    ensures
        parse_expr(toks, i, min_prec) matches Ok(p) ==> climb_expr(toks, i, min_prec) == res_map(
            eval_exp(p.0),
            p.1,
        ),
        parse_expr(toks, i, min_prec) is Err ==> climb_expr(toks, i, min_prec) is Err,
    decreases toks.len() - i, 1int,
{
    lemma_parse_atom_bounds(toks, i);
    lemma_parse_climb_atom(toks, i);
    let a = parse_atom(toks, i);
    if a is Ok {
        let p = a->Ok_0;
        if i < p.1 <= toks.len() {
            let ev = eval_exp(p.0);
            if ev is Ok {
                lemma_parse_climb_tail(toks, p.0, p.1, min_prec);
            } else {
                lemma_parse_tail_err_propagates(toks, p.0, p.1, min_prec);
            }
        }
    }
}

/// When the left tree already evaluates to an error, the chain parse keeps
/// that error: the final tree evaluates to the same error, and a chain
/// parse failure leaves nothing to show.
pub proof fn lemma_parse_tail_err_propagates(toks: Seq<TokenV>, lhs: Exp, i: int, min_prec: int)
    requires
        0 <= i <= toks.len(),
        eval_exp(lhs) is Err,
    ensures
        parse_tail(toks, lhs, i, min_prec) matches Ok(p) ==> eval_exp(p.0) == eval_exp(lhs),
    decreases toks.len() - i, 2int,
{
    if i < toks.len() && (toks[i] matches TokenV::Operator(c) && spec_prec(c) >= min_prec) {
        let c = toks[i]->Operator_0;
        let e = parse_expr(toks, i + 1, next_prec(c));
        if e is Ok {
            let p = e->Ok_0;
            if i < p.1 <= toks.len() {
                let e1 = Exp::Bin(c, Box::new(lhs), Box::new(p.0));
                assert(eval_exp(e1) == eval_exp(lhs));
                lemma_parse_tail_err_propagates(toks, e1, p.1, min_prec);
            }
        }
    }
}

/// The climbing engine's operator chain computes exactly the evaluation of
/// the reference chain's tree, given the value of the left tree so far.
pub proof fn lemma_parse_climb_tail(toks: Seq<TokenV>, lhs: Exp, i: int, min_prec: int)
    requires
        0 <= i <= toks.len(),
        eval_exp(lhs) is Ok,
    ensures
        parse_tail(toks, lhs, i, min_prec) matches Ok(p) ==> climb_tail(
            toks,
            eval_exp(lhs)->Ok_0,
            i,
            min_prec,
        ) == res_map(eval_exp(p.0), p.1),
        parse_tail(toks, lhs, i, min_prec) is Err ==> climb_tail(
            toks,
            eval_exp(lhs)->Ok_0,
            i,
            min_prec,
        ) is Err,
    decreases toks.len() - i, 2int,
{
    let v0 = eval_exp(lhs)->Ok_0;
    if i < toks.len() && (toks[i] matches TokenV::Operator(c) && spec_prec(c) >= min_prec) {
        let c = toks[i]->Operator_0;
        lemma_parse_expr_bounds(toks, i + 1, next_prec(c));
        lemma_parse_climb_expr(toks, i + 1, next_prec(c));
        let e = parse_expr(toks, i + 1, next_prec(c));
        if e is Ok {
            let p = e->Ok_0;
            if i < p.1 <= toks.len() {
                let e1 = Exp::Bin(c, Box::new(lhs), Box::new(p.0));
                let ev_r = eval_exp(p.0);
                if ev_r is Ok {
                    let b = ev_r->Ok_0;
                    assert(climb_expr(toks, i + 1, next_prec(c)) == Ok::<(RatV, int), ErrV>(
                        (b, p.1),
                    ));
                    let ap = apply_op(c, v0, b);
                    assert(eval_exp(e1) == ap);
                    if ap is Ok {
                        lemma_parse_climb_tail(toks, e1, p.1, min_prec);
                    } else {
                        lemma_parse_tail_err_propagates(toks, e1, p.1, min_prec);
                        assert(climb_tail(toks, v0, i, min_prec) == Err::<(RatV, int), ErrV>(
                            ap->Err_0,
                        ));
                    }
                } else {
                    assert(eval_exp(e1) == ev_r);
                    lemma_parse_tail_err_propagates(toks, e1, p.1, min_prec);
                    assert(climb_tail(toks, v0, i, min_prec) == Err::<(RatV, int), ErrV>(
                        ev_r->Err_0,
                    ));
                }
            }
        }
    }
}

} // verus!
