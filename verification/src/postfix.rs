//! The infix-to-postfix converter (shunting yard) and the postfix
//! evaluator.
//!
//! The converter keeps an operator stack: numbers go straight to the
//! output; an operator first pops every stacked operator that dominates it
//! (strictly higher precedence, or equal precedence when the incoming
//! operator is left-associative); a right parenthesis pops to the matching
//! left one. The evaluator keeps an operand stack and applies each operator
//! to the two values on top.

use vstd::prelude::*;

verus! {

use crate::error::{ErrV, ParseError};
use crate::rational::{RatV, Rational};
use crate::token::{
    apply_op,
    compute_op,
    left_assoc,
    precedence,
    rat_result_matches,
    spec_prec,
    tokens_view,
    Token,
    TokenV,
};
use crate::tokenizer::tokens_res_matches;

/// Whether the stacked operator `top` is popped before the incoming
/// operator `cur` is pushed: strictly higher precedence, or equal
/// precedence with `cur` left-associative.
pub open spec fn pops_before(top: char, cur: char) -> bool {
    spec_prec(top) > spec_prec(cur) || (spec_prec(top) == spec_prec(cur) && left_assoc(cur))
}

/// Pops every dominating operator off the stack onto the output, for an
/// incoming operator `cur`. The stack grows towards the sequence end.
pub open spec fn sy_pop_ops(cur: char, out: Seq<TokenV>, st: Seq<TokenV>) -> (Seq<TokenV>, Seq<
    TokenV,
>)
    decreases st.len(),
{
    if st.len() > 0 && (st.last() matches TokenV::Operator(top) && pops_before(top, cur)) {
        sy_pop_ops(cur, out.push(st.last()), st.drop_last())
    } else {
        (out, st)
    }
}

/// Pops operators onto the output until the matching left parenthesis,
/// which is discarded; `None` when the stack has no left parenthesis.
pub open spec fn sy_close_paren(out: Seq<TokenV>, st: Seq<TokenV>) -> Option<(Seq<TokenV>, Seq<
    TokenV,
>)>
    decreases st.len(),
{
    if st.len() == 0 {
        None
    } else if st.last() is LeftParen {
        Some((out, st.drop_last()))
    } else {
        sy_close_paren(out.push(st.last()), st.drop_last())
    }
}

/// Pops everything left on the stack onto the output at the end of input; a
/// left parenthesis still on the stack was never closed.
pub open spec fn sy_drain(out: Seq<TokenV>, st: Seq<TokenV>) -> Result<Seq<TokenV>, ErrV>
    decreases st.len(),
{
    if st.len() == 0 {
        Ok(out)
    } else if st.last() is LeftParen {
        Err(ErrV::UnmatchedParenthesis)
    } else {
        sy_drain(out.push(st.last()), st.drop_last())
    }
}

/// The shunting-yard transformation, processing `toks` with accumulated
/// output `out` and operator stack `st`.
pub open spec fn sy(toks: Seq<TokenV>, out: Seq<TokenV>, st: Seq<TokenV>) -> Result<
    Seq<TokenV>,
    ErrV,
>
    decreases toks.len(),
{
    if toks.len() == 0 {
        sy_drain(out, st)
    } else {
        let t = toks[0];
        let rest = toks.drop_first();
        match t {
            TokenV::Number(v) => sy(rest, out.push(t), st),
            TokenV::Operator(c) => {
                let popped = sy_pop_ops(c, out, st);
                sy(rest, popped.0, popped.1.push(t))
            },
            TokenV::LeftParen => sy(rest, out, st.push(t)),
            TokenV::RightParen => {
                match sy_close_paren(out, st) {
                    None => Err(ErrV::UnmatchedParenthesis),
                    Some(p) => sy(rest, p.0, p.1),
                }
            },
        }
    }
}

/// What converting a token sequence to postfix yields.
pub open spec fn spec_to_postfix(toks: Seq<TokenV>) -> Result<Seq<TokenV>, ErrV> {
    sy(toks, Seq::empty(), Seq::empty())
}

/// The postfix evaluation machine: numbers push, operators apply to the two
/// values on top (the deeper one on the left); at the end exactly one value
/// must remain. Parentheses never occur in postfix and are malformed.
pub open spec fn run(toks: Seq<TokenV>, st: Seq<RatV>) -> Result<RatV, ErrV>
    decreases toks.len(),
{
    if toks.len() == 0 {
        if st.len() == 1 {
            Ok(st[0])
        } else {
            Err(ErrV::MalformedExpression)
        }
    } else {
        match toks[0] {
            TokenV::Number(v) => run(toks.drop_first(), st.push(v)),
            TokenV::Operator(c) => {
                if st.len() < 2 {
                    Err(ErrV::MalformedExpression)
                } else {
                    match apply_op(c, st[st.len() - 2], st[st.len() - 1]) {
                        Ok(v) => run(toks.drop_first(), st.drop_last().drop_last().push(v)),
                        Err(e) => Err(e),
                    }
                }
            },
            _ => Err(ErrV::MalformedExpression),
        }
    }
}

/// What evaluating a postfix sequence yields.
pub open spec fn spec_evaluate_postfix(toks: Seq<TokenV>) -> Result<RatV, ErrV> {
    run(toks, Seq::empty())
}

/// The view of an operand stack.
pub open spec fn rats_view(s: Seq<Rational>) -> Seq<RatV> {
    s.map(|i: int, r: Rational| r@)
}

/// Whether the stacked token `t` is an operator popped before `cur`.
fn should_pop(t: Token, cur: char) -> (b: bool)
    ensures
        b == (t@ matches TokenV::Operator(top) && pops_before(top, cur)),
{
    let pc = precedence(cur);
    match t {
        Token::Operator(top) => {
            let pt = precedence(top);
            pt > pc || (pt == pc && cur != '^')
        },
        _ => false,
    }
}

/// Pops every operator dominating `cur` off `st` onto `out`, per
/// [`sy_pop_ops`].
fn pop_dominating(cur: char, out: &mut Vec<Token>, st: &mut Vec<Token>)
    ensures
        sy_pop_ops(cur, tokens_view(old(out)@), tokens_view(old(st)@)) == (
            tokens_view(final (out)@),
            tokens_view(final (st)@),
        ),
{
    let ghost o0 = tokens_view(out@);
    let ghost s0 = tokens_view(st@);
    loop
        invariant_except_break
            o0 == tokens_view(old(out)@),
            s0 == tokens_view(old(st)@),
            sy_pop_ops(cur, o0, s0) == sy_pop_ops(cur, tokens_view(out@), tokens_view(st@)),
        ensures
            sy_pop_ops(cur, o0, s0) == (tokens_view(out@), tokens_view(st@)),
            o0 == tokens_view(old(out)@),
            s0 == tokens_view(old(st)@),
        decreases st@.len(),
    {
        let ghost ov = tokens_view(out@);
        let ghost sv = tokens_view(st@);
        proof {
            assert(sv.len() == st@.len());
        }
        let n = st.len();
        if n == 0 {
            proof {
                assert(sy_pop_ops(cur, ov, sv) == (ov, sv));
            }
            break ;
        }
        let t = st[n - 1];
        proof {
            assert(t@ == sv.last());
        }
        let do_pop = should_pop(t, cur);
        if !do_pop {
            proof {
                assert(sy_pop_ops(cur, ov, sv) == (ov, sv));
            }
            break ;
        }
        st.pop();
        out.push(t);
        proof {
            assert(t@ matches TokenV::Operator(top) && pops_before(top, cur));
            assert(tokens_view(st@) =~= sv.drop_last());
            assert(tokens_view(out@) =~= ov.push(t@));
            assert(sy_pop_ops(cur, ov, sv) == sy_pop_ops(cur, ov.push(sv.last()), sv.drop_last()));
        }
    }
}

/// Pops to the matching left parenthesis, per [`sy_close_paren`]; `false`
/// when there is none.
fn close_paren(out: &mut Vec<Token>, st: &mut Vec<Token>) -> (ok: bool)
    ensures
        match sy_close_paren(tokens_view(old(out)@), tokens_view(old(st)@)) {
            None => !ok,
            Some(p) => ok && p == (tokens_view(final (out)@), tokens_view(final (st)@)),
        },
{
    let ghost o0 = tokens_view(out@);
    let ghost s0 = tokens_view(st@);
    loop
        invariant
            o0 == tokens_view(old(out)@),
            s0 == tokens_view(old(st)@),
            sy_close_paren(o0, s0) == sy_close_paren(tokens_view(out@), tokens_view(st@)),
        decreases st@.len(),
    {
        let ghost ov = tokens_view(out@);
        let ghost sv = tokens_view(st@);
        proof {
            assert(sv.len() == st@.len());
            if st@.len() > 0 {
                assert(sv.last() == st@[st@.len() - 1]@);
            }
        }
        match st.pop() {
            None => {
                return false;
            },
            Some(t) => {
                proof {
                    assert(t@ == sv.last());
                    assert(tokens_view(st@) =~= sv.drop_last());
                }
                match t {
                    Token::LeftParen => {
                        return true;
                    },
                    _ => {
                        out.push(t);
                        proof {
                            assert(tokens_view(out@) =~= ov.push(t@));
                        }
                    },
                }
            },
        }
    }
}

/// Converts an infix token sequence to postfix, per [`spec_to_postfix`]:
/// precedence and associativity order the operators, and an unmatched
/// parenthesis on either side is reported.
pub fn to_postfix(tokens: Vec<Token>) -> (r: Result<Vec<Token>, ParseError>)
    ensures
        tokens_res_matches(r, spec_to_postfix(tokens_view(tokens@))),
{
    let ghost tv = tokens_view(tokens@);
    let mut out: Vec<Token> = Vec::new();
    let mut st: Vec<Token> = Vec::new();
    let n = tokens.len();
    let mut i: usize = 0;
    proof {
        assert(tv.skip(0) =~= tv);
        assert(tokens_view(out@) =~= Seq::<TokenV>::empty());
        assert(tokens_view(st@) =~= Seq::<TokenV>::empty());
    }
    while i < n
        invariant
            tv == tokens_view(tokens@),
            n == tokens@.len(),
            0 <= i <= n,
            sy(tv.skip(i as int), tokens_view(out@), tokens_view(st@)) == spec_to_postfix(tv),
        decreases n - i,
    {
        let t = tokens[i];
        proof {
            assert(tv.len() == tokens@.len());
            assert(tv.skip(i as int)[0] == tv[i as int]);
            assert(tv.skip(i as int).drop_first() =~= tv.skip(i + 1));
            assert(tv.skip(i as int).len() == n - i);
        }
        match t {
            Token::Number(_) => {
                let ghost ov = tokens_view(out@);
                out.push(t);
                proof {
                    assert(tokens_view(out@) =~= ov.push(t@));
                }
            },
            Token::Operator(c) => {
                pop_dominating(c, &mut out, &mut st);
                let ghost sv = tokens_view(st@);
                st.push(t);
                proof {
                    assert(tokens_view(st@) =~= sv.push(t@));
                }
            },
            Token::LeftParen => {
                let ghost sv = tokens_view(st@);
                st.push(t);
                proof {
                    assert(tokens_view(st@) =~= sv.push(t@));
                }
            },
            Token::RightParen => {
                if !close_paren(&mut out, &mut st) {
                    return Err(ParseError::UnmatchedParenthesis);
                }
            },
        }
        i = i + 1;
    }
    proof {
        assert(tv.skip(n as int) =~= Seq::<TokenV>::empty());
    }
    // Drain the remaining operators; a left parenthesis here was never
    // closed.
    let ghost od = tokens_view(out@);
    let ghost sd = tokens_view(st@);
    loop
        invariant
            tv == tokens_view(tokens@),
            sy_drain(od, sd) == sy_drain(tokens_view(out@), tokens_view(st@)),
            sy(Seq::empty(), od, sd) == spec_to_postfix(tv),
        decreases st@.len(),
    {
        let ghost ov = tokens_view(out@);
        let ghost sv = tokens_view(st@);
        proof {
            assert(sv.len() == st@.len());
            if st@.len() > 0 {
                assert(sv.last() == st@[st@.len() - 1]@);
            }
        }
        match st.pop() {
            None => {
                return Ok(out);
            },
            Some(t) => {
                proof {
                    assert(tokens_view(st@) =~= sv.drop_last());
                }
                match t {
                    Token::LeftParen => {
                        return Err(ParseError::UnmatchedParenthesis);
                    },
                    _ => {
                        out.push(t);
                        proof {
                            assert(tokens_view(out@) =~= ov.push(t@));
                        }
                    },
                }
            },
        }
    }
}

/// Evaluates a postfix token sequence with an operand stack, per
/// [`spec_evaluate_postfix`]: an operator with fewer than two operands, a
/// leftover operand, an empty input, or a parenthesis is malformed;
/// arithmetic reports its own errors.
pub fn evaluate_postfix(tokens: Vec<Token>) -> (r: Result<Rational, ParseError>)
    ensures
        rat_result_matches(r, spec_evaluate_postfix(tokens_view(tokens@))),
{
    let ghost tv = tokens_view(tokens@);
    let mut stack: Vec<Rational> = Vec::new();
    let n = tokens.len();
    let mut i: usize = 0;
    proof {
        assert(tv.skip(0) =~= tv);
        assert(rats_view(stack@) =~= Seq::<RatV>::empty());
    }
    while i < n
        invariant
            tv == tokens_view(tokens@),
            n == tokens@.len(),
            0 <= i <= n,
            run(tv.skip(i as int), rats_view(stack@)) == spec_evaluate_postfix(tv),
        decreases n - i,
    {
        let t = tokens[i];
        proof {
            assert(tv.len() == tokens@.len());
            assert(tv.skip(i as int)[0] == tv[i as int]);
            assert(tv.skip(i as int).drop_first() =~= tv.skip(i + 1));
            assert(tv.skip(i as int).len() == n - i);
        }
        match t {
            Token::Number(v) => {
                let ghost sv = rats_view(stack@);
                stack.push(v);
                proof {
                    assert(rats_view(stack@) =~= sv.push(v@));
                }
            },
            Token::Operator(c) => {
                let m = stack.len();
                proof {
                    assert(rats_view(stack@).len() == m);
                }
                if m < 2 {
                    return Err(ParseError::MalformedExpression);
                }
                let ghost sv = rats_view(stack@);
                let b = stack[m - 1];
                let a = stack[m - 2];
                proof {
                    assert(sv[m - 1] == b@);
                    assert(sv[m - 2] == a@);
                }
                match compute_op(c, a, b) {
                    Ok(v) => {
                        stack.pop();
                        stack.pop();
                        stack.push(v);
                        proof {
                            assert(rats_view(stack@) =~= sv.drop_last().drop_last().push(v@));
                        }
                    },
                    Err(e) => {
                        return Err(e);
                    },
                }
            },
            _ => {
                return Err(ParseError::MalformedExpression);
            },
        }
        i = i + 1;
    }
    proof {
        assert(tv.skip(n as int) =~= Seq::<TokenV>::empty());
        assert(rats_view(stack@).len() == stack@.len());
    }
    if stack.len() == 1 {
        let v = stack[0];
        proof {
            assert(rats_view(stack@)[0] == v@);
        }
        Ok(v)
    } else {
        Err(ParseError::MalformedExpression)
    }
}

} // verus!
