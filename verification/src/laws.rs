//! The engine's laws.
//!
//! The centerpiece: on every token sequence the reference grammar accepts
//! in full, the shunting-yard converter emits exactly the postfix form of
//! the parse tree, the postfix evaluator computes exactly the tree's
//! evaluation (so the two-phase pipeline and the single-pass climbing
//! engine agree), and the converter's output never underflows the operand
//! stack. Re-evaluation is deterministic.

use vstd::prelude::*;

verus! {

use crate::climb::climb_eval;
use crate::error::ErrV;
use crate::grammar::{
    eval_exp,
    exp_wf,
    lemma_parse_climb_expr,
    lemma_parse_expr_bounds,
    lemma_parse_expr_stop,
    parse_atom,
    parse_expr,
    parse_tail,
    post_exp,
    res_map,
    Exp,
};
use crate::postfix::{
    pops_before,
    run,
    spec_evaluate_postfix,
    spec_to_postfix,
    sy,
    sy_close_paren,
    sy_drain,
    sy_pop_ops,
};
use crate::number::is_numeral_char;
use crate::rational::RatV;
use crate::spec_parse_and_evaluate;
use crate::token::{apply_op, is_op_char, left_assoc, next_prec, spec_prec, TokenV};
use crate::tokenizer::{
    is_space_char,
    lemma_next_token_advances,
    lemma_skip_ws_bounds,
    next_token,
    numeral_end,
    skip_ws,
    spec_tokenize,
    toks_from,
};

/// The reversal of a token sequence.
pub open spec fn rev(s: Seq<TokenV>) -> Seq<TokenV>
    decreases s.len(),
{
    if s.len() == 0 {
        Seq::empty()
    } else {
        rev(s.drop_first()) + seq![s[0]]
    }
}

/// Every element is an operator token.
pub open spec fn all_ops(s: Seq<TokenV>) -> bool {
    forall|k: int| 0 <= k < s.len() ==> s[k] is Operator
}

/// The shape of the operators a subexpression leaves on the converter's
/// stack, bottom first: each is an operator whose right-operand bound
/// covers everything above it, and the bound `q` covers the bottom.
pub open spec fn chain(b: Seq<TokenV>, q: int) -> bool
    decreases b.len(),
{
    b.len() == 0 || (b[0] matches TokenV::Operator(y) && q <= next_prec(y) && chain(
        b.drop_first(),
        next_prec(y),
    ))
}

/// The stack below a subexpression never interacts with its operators: its
/// top is absent, a left parenthesis, or an operator that no incoming
/// operator of precedence at least `m` pops.
pub open spec fn blocks(st0: Seq<TokenV>, m: int) -> bool {
    ||| st0.len() == 0
    ||| st0.last() is LeftParen
    ||| (st0.last() matches TokenV::Operator(z) && forall|c: char|
        spec_prec(c) >= m ==> !(#[trigger] pops_before(z, c)))
}

pub proof fn lemma_rev_unsnoc(s: Seq<TokenV>)
    requires
        s.len() > 0,
    ensures
        rev(s) == seq![s.last()] + rev(s.drop_last()),
    decreases s.len(),
{
    if s.len() == 1 {
        assert(s.drop_first() =~= Seq::<TokenV>::empty());
        assert(s.drop_last() =~= Seq::<TokenV>::empty());
        assert(rev(s) =~= seq![s.last()] + rev(s.drop_last()));
    } else {
        let df = s.drop_first();
        lemma_rev_unsnoc(df);
        assert(df.last() == s.last());
        assert(df.drop_last() =~= s.drop_last().drop_first());
        assert(s.drop_last()[0] == s[0]);
        assert(s.drop_last().len() > 0);
        assert(rev(s.drop_last()) == rev(s.drop_last().drop_first()) + seq![s[0]]);
        assert(rev(s) == (seq![s.last()] + rev(s.drop_last().drop_first())) + seq![s[0]]);
        assert((seq![s.last()] + rev(s.drop_last().drop_first())) + seq![s[0]] =~= seq![s.last()]
            + rev(s.drop_last()));
    }
}

/// A chain is still a chain under a smaller bound.
pub proof fn lemma_chain_weaken(b: Seq<TokenV>, q: int, q2: int)
    requires
        chain(b, q),
        q2 <= q,
    ensures
        chain(b, q2),
{
}

/// The top of a chain is popped by any operator under the bound, and what
/// remains is still a chain.
proof fn lemma_chain_last_pops(b: Seq<TokenV>, q: int, cur: char)
    requires
        chain(b, q),
        spec_prec(cur) < q,
        b.len() > 0,
    ensures
        b.last() matches TokenV::Operator(y) && pops_before(y, cur),
        chain(b.drop_last(), q),
    decreases b.len(),
{
    let y = b[0]->Operator_0;
    if b.len() == 1 {
        assert(b.last() == b[0]);
        assert(b.drop_last() =~= Seq::<TokenV>::empty());
    } else {
        let r = b.drop_first();
        lemma_chain_last_pops(r, next_prec(y), cur);
        assert(r.last() == b.last());
        assert(b.drop_last()[0] == b[0]);
        assert(b.drop_last().drop_first() =~= r.drop_last());
    }
}

/// An operator under the chain's bound pops the whole chain and stops at
/// the blocked stack below it.
proof fn lemma_chain_pops_all(cur: char, out: Seq<TokenV>, st0: Seq<TokenV>, b: Seq<TokenV>, q: int)
    requires
        chain(b, q),
        spec_prec(cur) < q,
        st0.len() == 0 || !(st0.last() matches TokenV::Operator(z) && pops_before(z, cur)),
    ensures
        sy_pop_ops(cur, out, st0 + b) == (out + rev(b), st0),
    decreases b.len(),
{
    if b.len() == 0 {
        assert(st0 + b =~= st0);
        assert(out + rev(b) =~= out);
    } else {
        lemma_chain_last_pops(b, q, cur);
        assert((st0 + b).last() == b.last());
        assert((st0 + b).drop_last() =~= st0 + b.drop_last());
        lemma_chain_pops_all(cur, out.push(b.last()), st0, b.drop_last(), q);
        lemma_rev_unsnoc(b);
        assert(out.push(b.last()) + rev(b.drop_last()) =~= out + (seq![b.last()] + rev(
            b.drop_last(),
        )));
    }
}

/// Closing a parenthesis pops the operators above it and discards it.
proof fn lemma_close_paren_ops(out: Seq<TokenV>, st0: Seq<TokenV>, b: Seq<TokenV>)
    requires
        all_ops(b),
    ensures
        sy_close_paren(out, st0 + seq![TokenV::LeftParen] + b) == Some(
            (out + rev(b), st0 + Seq::<TokenV>::empty()),
        ),
    decreases b.len(),
{
    let st = st0 + seq![TokenV::LeftParen] + b;
    if b.len() == 0 {
        assert(st =~= st0.push(TokenV::LeftParen));
        assert(st.last() is LeftParen);
        assert(st.drop_last() =~= st0 + Seq::<TokenV>::empty());
        assert(out + rev(b) =~= out);
        assert(st0 + Seq::<TokenV>::empty() =~= st0);
    } else {
        assert(st.last() == b.last());
        assert(b.last() is Operator);
        assert(st.drop_last() =~= st0 + seq![TokenV::LeftParen] + b.drop_last());
        assert(all_ops(b.drop_last()));
        lemma_close_paren_ops(out.push(b.last()), st0, b.drop_last());
        lemma_rev_unsnoc(b);
        assert(out.push(b.last()) + rev(b.drop_last()) =~= out + (seq![b.last()] + rev(
            b.drop_last(),
        )));
    }
}

/// Draining a stack of operators appends them in pop order.
proof fn lemma_drain_ops(out: Seq<TokenV>, b: Seq<TokenV>)
    requires
        all_ops(b),
    ensures
        sy_drain(out, b) == Ok::<Seq<TokenV>, ErrV>(out + rev(b)),
    decreases b.len(),
{
    if b.len() == 0 {
        assert(out + rev(b) =~= out);
    } else {
        assert(b.last() is Operator);
        assert(all_ops(b.drop_last()));
        lemma_drain_ops(out.push(b.last()), b.drop_last());
        lemma_rev_unsnoc(b);
        assert(out.push(b.last()) + rev(b.drop_last()) =~= out + (seq![b.last()] + rev(
            b.drop_last(),
        )));
    }
}

/// Running the postfix form of a tree consumes it entirely: it pushes the
/// tree's value, or stops with the tree's evaluation error.
pub proof fn lemma_run_post(e: Exp, rest: Seq<TokenV>, st: Seq<RatV>)
    ensures
        run(post_exp(e) + rest, st) == (match eval_exp(e) {
            Ok(v) => run(rest, st.push(v)),
            Err(er) => Err(er),
        }),
    decreases e,
{
    match e {
        Exp::Num(v) => {
            let toks = post_exp(e) + rest;
            assert(toks[0] == TokenV::Number(v));
            assert(toks.drop_first() =~= rest);
        },
        Exp::Bin(c, l, r) => {
            let tail = seq![TokenV::Operator(c)] + rest;
            assert(post_exp(e) + rest =~= post_exp(*l) + (post_exp(*r) + tail));
            lemma_run_post(*l, post_exp(*r) + tail, st);
            if eval_exp(*l) is Ok {
                let a = eval_exp(*l)->Ok_0;
                lemma_run_post(*r, tail, st.push(a));
                if eval_exp(*r) is Ok {
                    let b = eval_exp(*r)->Ok_0;
                    let st2 = st.push(a).push(b);
                    assert(tail[0] == TokenV::Operator(c));
                    assert(tail.drop_first() =~= rest);
                    assert(st2.len() >= 2);
                    assert(st2[st2.len() - 2] == a);
                    assert(st2[st2.len() - 1] == b);
                    if apply_op(c, a, b) is Ok {
                        let v = apply_op(c, a, b)->Ok_0;
                        assert(st2.drop_last().drop_last().push(v) =~= st.push(v));
                    }
                }
            }
        },
    }
}

/// The converter over the span of an atom: output extended by exactly the
/// atom's postfix form, stack unchanged.
proof fn lemma_sy_atom_span(toks: Seq<TokenV>, i: int, out: Seq<TokenV>, st0: Seq<TokenV>)
    requires
        0 <= i <= toks.len(),
        parse_atom(toks, i) is Ok,
    ensures
        ({
            let p = parse_atom(toks, i)->Ok_0;
            sy(toks.skip(i), out, st0) == sy(toks.skip(p.1), out + post_exp(p.0), st0)
        }),
    decreases toks.len() - i, 0int,
{
    let p = parse_atom(toks, i)->Ok_0;
    assert(toks.skip(i)[0] == toks[i]);
    assert(toks.skip(i).drop_first() =~= toks.skip(i + 1));
    assert(toks.skip(i).len() == toks.len() - i);
    match toks[i] {
        TokenV::Number(v) => {
            assert(out.push(toks[i]) =~= out + post_exp(p.0));
        },
        TokenV::LeftParen => {
            lemma_parse_expr_bounds(toks, i + 1, 1);
            let q = parse_expr(toks, i + 1, 1)->Ok_0;
            assert(sy(toks.skip(i), out, st0) == sy(toks.skip(i + 1), out, st0.push(
                TokenV::LeftParen,
            )));
            assert(st0.push(TokenV::LeftParen) =~= st0 + seq![TokenV::LeftParen]);
            let spanned = lemma_sy_expr_span(toks, i + 1, 1, out, st0 + seq![TokenV::LeftParen]);
            let j = q.1;
            assert(toks[j] is RightParen);
            assert(toks.skip(j)[0] == toks[j]);
            assert(toks.skip(j).drop_first() =~= toks.skip(j + 1));
            assert(toks.skip(j).len() == toks.len() - j);
            assert((st0 + seq![TokenV::LeftParen]) + spanned.1 =~= st0 + seq![TokenV::LeftParen]
                + spanned.1);
            lemma_close_paren_ops(out + spanned.0, st0, spanned.1);
            assert(st0 + Seq::<TokenV>::empty() =~= st0);
            assert((out + spanned.0) + rev(spanned.1) =~= out + (spanned.0 + rev(spanned.1)));
            assert(out + (spanned.0 + rev(spanned.1)) == out + post_exp(q.0));
            assert(p.0 == q.0 && p.1 == j + 1);
        },
        _ => {
            assert(false);
        },
    }
}

/// The converter over the span of an expression at minimum precedence `m`,
/// starting above a blocked stack: the output grows by the tree's postfix
/// form except for a chain of operators left on the stack.
proof fn lemma_sy_expr_span(toks: Seq<TokenV>, i: int, m: int, out: Seq<TokenV>, st0: Seq<TokenV>)
    -> (r: (Seq<TokenV>, Seq<TokenV>))
    requires
        0 <= i <= toks.len(),
        parse_expr(toks, i, m) is Ok,
        blocks(st0, m),
        m <= 4,
    ensures
        ({
            let p = parse_expr(toks, i, m)->Ok_0;
            &&& sy(toks.skip(i), out, st0) == sy(toks.skip(p.1), out + r.0, st0 + r.1)
            &&& r.0 + rev(r.1) == post_exp(p.0)
            &&& chain(r.1, m)
            &&& all_ops(r.1)
        }),
    decreases toks.len() - i, 1int,
{
    lemma_parse_expr_bounds(toks, i, m);
    let pa = parse_atom(toks, i)->Ok_0;
    lemma_sy_atom_span(toks, i, out, st0);
    let f = lemma_sy_tail_span(
        toks,
        pa.0,
        pa.1,
        m,
        out + post_exp(pa.0),
        st0,
        Seq::empty(),
        4,
        post_exp(pa.0),
    );
    let p = parse_expr(toks, i, m)->Ok_0;
    assert(st0 + Seq::<TokenV>::empty() =~= st0);
    assert((out + post_exp(pa.0)) + f.0 =~= out + (post_exp(pa.0) + f.0));
    (post_exp(pa.0) + f.0, f.1)
}

/// The converter over the span of an operator chain: the state keeps the
/// invariant that output plus reversed stacked chain is the postfix form
/// of the tree built so far.
proof fn lemma_sy_tail_span(
    toks: Seq<TokenV>,
    e0: Exp,
    i: int,
    m: int,
    out: Seq<TokenV>,
    st0: Seq<TokenV>,
    b0: Seq<TokenV>,
    q0: int,
    a0: Seq<TokenV>,
) -> (r: (Seq<TokenV>, Seq<TokenV>))
    requires
        0 <= i <= toks.len(),
        parse_tail(toks, e0, i, m) is Ok,
        blocks(st0, m),
        m <= 4,
        chain(b0, q0),
        m <= q0,
        all_ops(b0),
        a0 + rev(b0) == post_exp(e0),
        i < toks.len() && toks[i] is Operator && spec_prec(toks[i]->Operator_0) >= m ==> spec_prec(
            toks[i]->Operator_0,
        ) < q0,
    ensures
        ({
            let p = parse_tail(toks, e0, i, m)->Ok_0;
            &&& sy(toks.skip(i), out, st0 + b0) == sy(toks.skip(p.1), out + r.0, st0 + r.1)
            &&& (a0 + r.0) + rev(r.1) == post_exp(p.0)
            &&& chain(r.1, m)
            &&& all_ops(r.1)
        }),
    decreases toks.len() - i, 2int,
{
    if i < toks.len() && (toks[i] matches TokenV::Operator(c) && spec_prec(c) >= m) {
        let c = toks[i]->Operator_0;
        // The incoming operator pops the whole chain.
        assert(st0.len() == 0 || !(st0.last() matches TokenV::Operator(z) && pops_before(z, c)));
        lemma_chain_pops_all(c, out, st0, b0, q0);
        assert(toks.skip(i)[0] == toks[i]);
        assert(toks.skip(i).drop_first() =~= toks.skip(i + 1));
        assert(toks.skip(i).len() == toks.len() - i);
        assert(st0.push(toks[i]) =~= st0 + seq![TokenV::Operator(c)]);
        // The right operand's span, above the freshly pushed operator.
        let np = next_prec(c);
        assert(blocks(st0 + seq![TokenV::Operator(c)], np)) by {
            assert(forall|c2: char|
                spec_prec(c2) >= np ==> !(#[trigger] pops_before(c, c2))) by {
                assert forall|c2: char| spec_prec(c2) >= np implies !(#[trigger] pops_before(
                    c,
                    c2,
                )) by {
                    if left_assoc(c) {
                        assert(spec_prec(c2) > spec_prec(c));
                    } else {
                        assert(spec_prec(c) == 3 && spec_prec(c2) == 3);
                        assert(c2 == '^');
                    }
                }
            }
        }
        lemma_parse_expr_bounds(toks, i + 1, np);
        let pr = parse_expr(toks, i + 1, np)->Ok_0;
        let re = pr.0;
        let jr = pr.1;
        let spanned = lemma_sy_expr_span(
            toks,
            i + 1,
            np,
            out + rev(b0),
            st0 + seq![TokenV::Operator(c)],
        );
        let e1 = Exp::Bin(c, Box::new(e0), Box::new(re));
        let b1 = seq![TokenV::Operator(c)] + spanned.1;
        let a1 = (a0 + rev(b0)) + spanned.0;
        // The new chain: the pushed operator below the right operand's
        // leftovers.
        assert(b1[0] == TokenV::Operator(c));
        assert(b1.drop_first() =~= spanned.1);
        assert(chain(b1, np));
        assert(rev(b1) == rev(spanned.1) + seq![TokenV::Operator(c)]);
        assert(a1 + rev(b1) =~= ((a0 + rev(b0)) + (spanned.0 + rev(spanned.1))) + seq![
            TokenV::Operator(c),
        ]);
        assert(post_exp(e1) == (post_exp(e0) + post_exp(re)) + seq![TokenV::Operator(c)]);
        assert(a1 + rev(b1) =~= post_exp(e1));
        // The next operator, if the chain continues, binds below the new
        // bound.
        lemma_parse_expr_stop(toks, i + 1, np);
        assert((st0 + seq![TokenV::Operator(c)]) + spanned.1 =~= st0 + b1);
        let f = lemma_sy_tail_span(toks, e1, jr, m, (out + rev(b0)) + spanned.0, st0, b1, np, a1);
        let dall = (rev(b0) + spanned.0) + f.0;
        assert(out + dall =~= ((out + rev(b0)) + spanned.0) + f.0);
        assert(a0 + dall =~= a1 + f.0);
        let p = parse_tail(toks, e0, i, m)->Ok_0;
        assert((a0 + dall) + rev(f.1) =~= (a1 + f.0) + rev(f.1));
        (dall, f.1)
    } else {
        // The chain ends here: nothing new in the output, the chain stays.
        assert(parse_tail(toks, e0, i, m) == Ok::<(Exp, int), ErrV>((e0, i)));
        lemma_chain_weaken(b0, q0, m);
        assert(out + Seq::<TokenV>::empty() =~= out);
        assert((a0 + Seq::<TokenV>::empty()) + rev(b0) =~= a0 + rev(b0));
        (Seq::empty(), b0)
    }
}

/// Evaluation of a well-formed tree fails only with an arithmetic error:
/// division by zero, overflow, or a fractional exponent.
pub proof fn lemma_eval_err_kind(e: Exp)
    requires
        exp_wf(e),
    ensures
        eval_exp(e) matches Err(er) ==> er == ErrV::DivisionByZero || er == ErrV::Overflow || er
            == ErrV::FractionalExponent,
    decreases e,
{
    match e {
        Exp::Num(_) => {
        },
        Exp::Bin(c, l, r) => {
            lemma_eval_err_kind(*l);
            lemma_eval_err_kind(*r);
        },
    }
}

/// LAW: on every token sequence the grammar accepts in full, the converter
/// emits exactly the parse tree's postfix form, the postfix evaluator
/// computes exactly the tree's evaluation, and the climbing engine agrees:
/// the two evaluation strategies are interchangeable.
pub proof fn law_pipeline_matches_reference(toks: Seq<TokenV>)
    requires
        parse_expr(toks, 0, 1) matches Ok(p) && p.1 == toks.len(),
    ensures
        ({
            let t = parse_expr(toks, 0, 1)->Ok_0.0;
            &&& spec_to_postfix(toks) == Ok::<Seq<TokenV>, ErrV>(post_exp(t))
            &&& spec_evaluate_postfix(post_exp(t)) == eval_exp(t)
            &&& climb_eval(toks) == eval_exp(t)
        }),
{
    let p = parse_expr(toks, 0, 1)->Ok_0;
    let t = p.0;
    // Conversion: the expression span covers the whole input; draining the
    // leftover chain completes the postfix form.
    let empty_toks = Seq::<TokenV>::empty();
    assert(blocks(empty_toks, 1));
    let spanned = lemma_sy_expr_span(toks, 0, 1, empty_toks, empty_toks);
    assert(toks.skip(0) =~= toks);
    assert(toks.skip(toks.len() as int) =~= Seq::<TokenV>::empty());
    assert(empty_toks + spanned.0 =~= spanned.0);
    assert(empty_toks + spanned.1 =~= spanned.1);
    lemma_drain_ops(spanned.0, spanned.1);
    // Evaluation of the emitted postfix.
    lemma_run_post(t, Seq::empty(), Seq::empty());
    assert(post_exp(t) + Seq::<TokenV>::empty() =~= post_exp(t));
    if eval_exp(t) is Ok {
        let v = eval_exp(t)->Ok_0;
        let one = Seq::<RatV>::empty().push(v);
        assert(run(Seq::empty(), one) == Ok::<RatV, ErrV>(one[0]));
    }
    // The climbing engine computes the same evaluation.
    lemma_parse_climb_expr(toks, 0, 1);
    assert(crate::climb::climb_expr(toks, 0, 1) == res_map(eval_exp(t), p.1));
}

/// LAW: the full pipeline on an expression text whose tokens the grammar
/// accepts equals the reference evaluation of the parse tree — and so
/// equals the climbing engine on the same tokens.
pub proof fn law_parse_and_evaluate_matches_reference(s: Seq<char>)
    requires
        spec_tokenize(s) matches Ok(ts) && (parse_expr(ts, 0, 1) matches Ok(p) && p.1 == ts.len()),
    ensures
        spec_parse_and_evaluate(s) == eval_exp(parse_expr(spec_tokenize(s)->Ok_0, 0, 1)->Ok_0.0),
        spec_parse_and_evaluate(s) == climb_eval(spec_tokenize(s)->Ok_0),
{
    let ts = spec_tokenize(s)->Ok_0;
    law_pipeline_matches_reference(ts);
}

/// LAW: a postfix sequence the converter produces from grammatically valid
/// infix is consumed to exactly one residual value: the evaluator returns
/// the expression's value or an arithmetic error, never a stack underflow
/// or leftover operands.
pub proof fn law_converter_output_well_formed(toks: Seq<TokenV>)
    requires
        parse_expr(toks, 0, 1) matches Ok(p) && p.1 == toks.len(),
    ensures
        spec_to_postfix(toks) is Ok,
        ({
            let pf = spec_to_postfix(toks)->Ok_0;
            match spec_evaluate_postfix(pf) {
                Ok(_) => true,
                Err(er) => er == ErrV::DivisionByZero || er == ErrV::Overflow || er
                    == ErrV::FractionalExponent,
            }
        }),
{
    law_pipeline_matches_reference(toks);
    lemma_parse_expr_bounds(toks, 0, 1);
    let t = parse_expr(toks, 0, 1)->Ok_0.0;
    lemma_eval_err_kind(t);
}

/// Inserting at position `k` does not split a numeric literal in two.
pub open spec fn no_literal_split(s: Seq<char>, k: int) -> bool {
    !(0 < k < s.len() && is_numeral_char(s[k - 1]) && is_numeral_char(s[k]))
}

/// Two errors that agree, except possibly in the reported position of an
/// invalid character.
pub open spec fn err_sim(e2: ErrV, e: ErrV) -> bool {
    match (e2, e) {
        (ErrV::InvalidCharacter(c2, _), ErrV::InvalidCharacter(c1, _)) => c2 == c1,
        _ => e2 == e,
    }
}

/// Token-sequence results that agree up to [`err_sim`].
pub open spec fn toks_res_sim(r2: Result<Seq<TokenV>, ErrV>, r: Result<Seq<TokenV>, ErrV>) -> bool {
    match (r2, r) {
        (Ok(a), Ok(b)) => a == b,
        (Err(e2), Err(e)) => err_sim(e2, e),
        _ => false,
    }
}

/// Value results that agree up to [`err_sim`].
pub open spec fn val_res_sim(r2: Result<RatV, ErrV>, r: Result<RatV, ErrV>) -> bool {
    match (r2, r) {
        (Ok(a), Ok(b)) => a == b,
        (Err(e2), Err(e)) => err_sim(e2, e),
        _ => false,
    }
}

/// Skipping whitespace lands at the corresponding position after a
/// whitespace insertion at `k`: positions before `k` stay, positions from
/// `k` on shift by one.
proof fn lemma_skip_ws_insert(s: Seq<char>, k: int, c: char, i: int)
    requires
        0 <= k <= s.len(),
        is_space_char(c),
        0 <= i <= s.len(),
    ensures
        ({
            let s2 = s.insert(k, c);
            let j = skip_ws(s, i);
            skip_ws(s2, if i < k {
                i
            } else {
                i + 1
            }) == (if j < k {
                j
            } else {
                j + 1
            })
        }),
    decreases s.len() - i,
{
    s.insert_ensures(k, c);
    lemma_skip_ws_bounds(s, i);
    let s2 = s.insert(k, c);
    if i < s.len() && is_space_char(s[i]) {
        lemma_skip_ws_insert(s, k, c, i + 1);
        if i < k {
            assert(s2[i] == s[i]);
            if i + 1 == k {
                // The scan in the longer text runs onto the inserted
                // whitespace and skips it too.
                assert(s2[k] == c);
                assert(skip_ws(s2, k) == skip_ws(s2, k + 1));
            }
        } else {
            assert(s2[i + 1] == s[i]);
        }
    } else {
        if i < k {
            assert(i < s.len() ==> s2[i] == s[i]);
        } else if i < s.len() {
            assert(s2[i + 1] == s[i]);
        }
    }
}

/// A numeral run that starts before the insertion point ends at or before
/// it, and is unchanged by the insertion.
proof fn lemma_numeral_end_insert_low(s: Seq<char>, k: int, c: char, i: int)
    requires
        0 <= i < k <= s.len(),
        is_space_char(c),
        no_literal_split(s, k),
    ensures
        numeral_end(s, i) <= k,
        numeral_end(s.insert(k, c), i) == numeral_end(s, i),
    decreases k - i,
{
    s.insert_ensures(k, c);
    let s2 = s.insert(k, c);
    assert(s2[i] == s[i]);
    if is_numeral_char(s[i]) {
        if i + 1 < k {
            lemma_numeral_end_insert_low(s, k, c, i + 1);
        } else {
            // The run reaches the insertion point: it must stop there,
            // else the insertion would split a literal.
            assert(i + 1 == k);
            if k < s.len() {
                assert(!is_numeral_char(s[k]));
            }
            assert(numeral_end(s, k) == k);
            assert(s2[k] == c);
            assert(!is_numeral_char(c));
            assert(numeral_end(s2, k) == k);
        }
    }
}

/// A numeral run that starts at or after the insertion point shifts by
/// one.
proof fn lemma_numeral_end_insert_high(s: Seq<char>, k: int, c: char, i: int)
    requires
        0 <= k <= i <= s.len(),
        is_space_char(c),
    ensures
        numeral_end(s.insert(k, c), i + 1) == numeral_end(s, i) + 1,
    decreases s.len() - i,
{
    s.insert_ensures(k, c);
    let s2 = s.insert(k, c);
    if i < s.len() {
        assert(s2[i + 1] == s[i]);
        if is_numeral_char(s[i]) {
            lemma_numeral_end_insert_high(s, k, c, i + 1);
        }
    }
}

/// One tokenizer step commutes with a whitespace insertion that does not
/// split a literal: the same token (or an [`err_sim`]-equal error), with
/// the continuation position shifted past the insertion point.
#[verifier::rlimit(60)]
proof fn lemma_next_token_insert(s: Seq<char>, k: int, c: char, i: int)
    requires
        0 <= k <= s.len(),
        is_space_char(c),
        no_literal_split(s, k),
        0 <= i <= s.len(),
    ensures
        ({
            let s2 = s.insert(k, c);
            let i2 = if i <= k {
                i
            } else {
                i + 1
            };
            match next_token(s, i) {
                Ok(None) => next_token(s2, i2) == Ok::<Option<(TokenV, int)>, ErrV>(None),
                Ok(Some(p)) => next_token(s2, i2) == Ok::<Option<(TokenV, int)>, ErrV>(
                    Some(
                        (
                            p.0,
                            if p.1 <= k {
                                p.1
                            } else {
                                p.1 + 1
                            },
                        ),
                    ),
                ),
                Err(e) => next_token(s2, i2) matches Err(e2) && err_sim(e2, e),
            }
        }),
{
    s.insert_ensures(k, c);
    let s2 = s.insert(k, c);
    let i2 = if i <= k {
        i
    } else {
        i + 1
    };
    let j = skip_ws(s, i);
    lemma_skip_ws_bounds(s, i);
    let j2 = if j < k {
        j
    } else {
        j + 1
    };
    if i == k {
        // The scan starts on the inserted whitespace and skips it first.
        assert(s2[k] == c);
        assert(skip_ws(s2, k) == skip_ws(s2, k + 1));
        lemma_skip_ws_insert(s, k, c, k);
    } else {
        lemma_skip_ws_insert(s, k, c, i);
    }
    assert(skip_ws(s2, i2) == j2);
    if j < s.len() {
        let ch = s[j];
        if j < k {
            assert(s2[j] == ch);
        } else {
            assert(s2[j + 1] == ch);
        }
        if is_numeral_char(ch) {
            if j < k {
                lemma_numeral_end_insert_low(s, k, c, j);
                let ne = numeral_end(s, j);
                crate::tokenizer::lemma_numeral_end_bounds(s, j);
                assert(s2.subrange(j, ne) =~= s.subrange(j, ne)) by {
                    assert forall|m: int| 0 <= m < ne - j implies s2.subrange(j, ne)[m]
                        == s.subrange(j, ne)[m] by {
                        assert(s2[j + m] == s[j + m]);
                    }
                }
            } else {
                lemma_numeral_end_insert_high(s, k, c, j);
                let ne = numeral_end(s, j);
                crate::tokenizer::lemma_numeral_end_bounds(s, j);
                assert(s2.subrange(j + 1, ne + 1) =~= s.subrange(j, ne)) by {
                    assert forall|m: int| 0 <= m < ne - j implies s2.subrange(j + 1, ne + 1)[m]
                        == s.subrange(j, ne)[m] by {
                        assert(s2[(j + m) + 1] == s[j + m]);
                    }
                }
            }
        }
    }
}

/// The whole tokenization commutes with such an insertion, up to the
/// position inside an invalid-character report.
proof fn lemma_toks_from_insert(s: Seq<char>, k: int, c: char, i: int)
    requires
        0 <= k <= s.len(),
        is_space_char(c),
        no_literal_split(s, k),
        0 <= i <= s.len(),
    ensures
        toks_res_sim(
            toks_from(
                s.insert(k, c),
                if i <= k {
                    i
                } else {
                    i + 1
                },
            ),
            toks_from(s, i),
        ),
    decreases s.len() - i,
{
    s.insert_ensures(k, c);
    let s2 = s.insert(k, c);
    let i2 = if i <= k {
        i
    } else {
        i + 1
    };
    lemma_next_token_insert(s, k, c, i);
    lemma_next_token_advances(s, i);
    lemma_next_token_advances(s2, i2);
    match next_token(s, i) {
        Ok(None) => {
        },
        Ok(Some(p)) => {
            lemma_toks_from_insert(s, k, c, p.1);
        },
        Err(_) => {
        },
    }
}

/// LAW (whitespace insensitivity): inserting a whitespace character
/// anywhere that does not split a numeric literal in two leaves the token
/// sequence, and with it the engine's result, unchanged — except that an
/// invalid character, if any, is reported at its shifted position. (An
/// insertion between the digits of one literal genuinely changes the
/// expression, as in `12` against `1 2`.)
pub proof fn law_whitespace_insensitive(s: Seq<char>, k: int, c: char)
    requires
        0 <= k <= s.len(),
        is_space_char(c),
        no_literal_split(s, k),
    ensures
        toks_res_sim(spec_tokenize(s.insert(k, c)), spec_tokenize(s)),
        val_res_sim(spec_parse_and_evaluate(s.insert(k, c)), spec_parse_and_evaluate(s)),
{
    lemma_toks_from_insert(s, k, c, 0);
}

/// LAW: evaluating the same text twice yields identical results; the
/// engine's outcome is a function of the input text alone, with no state
/// carried between calls.
pub proof fn law_reevaluation_deterministic(
    s: Seq<char>,
    r1: Result<RatV, ErrV>,
    r2: Result<RatV, ErrV>,
)
    requires
        r1 == spec_parse_and_evaluate(s),
        r2 == spec_parse_and_evaluate(s),
    ensures
        r1 == r2,
{
}

} // verus!
