//! The tokenizer: from a character sequence to a token sequence.
//!
//! Scanning goes left to right. Runs of digits and dots form one numeric
//! lexeme; operator symbols and parentheses are single tokens; whitespace
//! (space, tab, newline, carriage return) separates tokens and is dropped;
//! any other character is reported with its position. [`Tokenizer`] hands
//! out one token at a time; [`tokenize`] collects them all.

use vstd::prelude::*;

verus! {

use crate::error::{ErrV, ParseError};
use crate::number::{is_numeral_char, lexeme_result, parse_number};
use crate::strutil::str_to_chars;
use crate::token::{is_op_char, tokens_view, Token, TokenV};

/// The whitespace characters the tokenizer discards.
pub open spec fn is_space_char(c: char) -> bool {
    c == ' ' || c == '\t' || c == '\n' || c == '\r'
}

/// The position of the first non-whitespace character at or after `i`.
pub open spec fn skip_ws(s: Seq<char>, i: int) -> int
    decreases s.len() - i,
        when 0 <= i <= s.len()
{
    if i < s.len() && is_space_char(s[i]) {
        skip_ws(s, i + 1)
    } else {
        i
    }
}

/// The position right after the run of lexeme characters starting at `i`.
pub open spec fn numeral_end(s: Seq<char>, i: int) -> int
    decreases s.len() - i,
        when 0 <= i <= s.len()
{
    if i < s.len() && is_numeral_char(s[i]) {
        numeral_end(s, i + 1)
    } else {
        i
    }
}

/// The next token at or after position `i`, with the position just past it:
/// `Ok(None)` at the end of input, the numeric lexeme's value or its error
/// for a digit or dot, a single token for operators and parentheses, and
/// `InvalidCharacter` with the offending character and position otherwise.
pub open spec fn next_token(s: Seq<char>, i: int) -> Result<Option<(TokenV, int)>, ErrV> {
    let j = skip_ws(s, i);
    if j >= s.len() {
        Ok(None)
    } else {
        let c = s[j];
        if is_numeral_char(c) {
            let k = numeral_end(s, j);
            match lexeme_result(s.subrange(j, k)) {
                Ok(v) => Ok(Some((TokenV::Number(v), k))),
                Err(e) => Err(e),
            }
        } else if is_op_char(c) {
            Ok(Some((TokenV::Operator(c), j + 1)))
        } else if c == '(' {
            Ok(Some((TokenV::LeftParen, j + 1)))
        } else if c == ')' {
            Ok(Some((TokenV::RightParen, j + 1)))
        } else {
            Err(ErrV::InvalidCharacter(c, j))
        }
    }
}

/// All tokens from position `i` on: the fixpoint of [`next_token`].
pub open spec fn toks_from(s: Seq<char>, i: int) -> Result<Seq<TokenV>, ErrV>
    decreases s.len() - i,
        when 0 <= i <= s.len()
{
    match next_token(s, i) {
        Err(e) => Err(e),
        Ok(None) => Ok(Seq::empty()),
        Ok(Some((t, j))) => {
            // The bound check discharges termination; lemma_next_token_advances
            // shows the failing branch is never taken.
            if i < j <= s.len() {
                match toks_from(s, j) {
                    Ok(rest) => Ok(seq![t] + rest),
                    Err(e) => Err(e),
                }
            } else {
                Err(ErrV::MalformedExpression)
            }
        },
    }
}

/// What tokenizing a whole character sequence yields.
pub open spec fn spec_tokenize(s: Seq<char>) -> Result<Seq<TokenV>, ErrV> {
    toks_from(s, 0)
}

pub proof fn lemma_skip_ws_bounds(s: Seq<char>, i: int)
    requires
        0 <= i <= s.len(),
    ensures
        i <= skip_ws(s, i) <= s.len(),
    decreases s.len() - i,
{
    if i < s.len() && is_space_char(s[i]) {
        lemma_skip_ws_bounds(s, i + 1);
    }
}

pub proof fn lemma_numeral_end_bounds(s: Seq<char>, i: int)
    requires
        0 <= i <= s.len(),
    ensures
        i <= numeral_end(s, i) <= s.len(),
        i < s.len() && is_numeral_char(s[i]) ==> i + 1 <= numeral_end(s, i),
    decreases s.len() - i,
{
    if i < s.len() && is_numeral_char(s[i]) {
        lemma_numeral_end_bounds(s, i + 1);
    }
}

/// A produced token always stands strictly after the position it was read
/// from, and within the input.
pub proof fn lemma_next_token_advances(s: Seq<char>, i: int)
    requires
        0 <= i <= s.len(),
    ensures
        next_token(s, i) matches Ok(Some((t, j))) ==> i < j <= s.len(),
{
    lemma_skip_ws_bounds(s, i);
    let j = skip_ws(s, i);
    if j < s.len() {
        lemma_numeral_end_bounds(s, j);
    }
}

/// Result of prefixing already-produced tokens onto the rest of a
/// tokenization.
pub open spec fn prepend_tokens(prefix: Seq<TokenV>, rest: Result<Seq<TokenV>, ErrV>) -> Result<
    Seq<TokenV>,
    ErrV,
> {
    match rest {
        Ok(ts) => Ok(prefix + ts),
        Err(e) => Err(e),
    }
}

/// An executable token-sequence result agrees with a mathematical one.
pub open spec fn tokens_res_matches(
    r: Result<Vec<Token>, ParseError>,
    s: Result<Seq<TokenV>, ErrV>,
) -> bool {
    match r {
        Ok(v) => s matches Ok(ts) && tokens_view(v@) == ts,
        Err(e) => s matches Err(f) && e@ == f,
    }
}

/// An executable step result agrees with [`next_token`], with `new_pos` the
/// position after the step.
pub open spec fn next_res_matches(
    r: Result<Option<Token>, ParseError>,
    s: Result<Option<(TokenV, int)>, ErrV>,
    new_pos: int,
) -> bool {
    match r {
        Ok(Some(t)) => s matches Ok(Some(p)) && p.0 == t@ && p.1 == new_pos,
        Ok(None) => s matches Ok(None),
        Err(e) => s matches Err(f) && e@ == f,
    }
}

fn is_space(c: char) -> (b: bool)
    ensures
        b == is_space_char(c),
{
    c == ' ' || c == '\t' || c == '\n' || c == '\r'
}

fn is_numeral(c: char) -> (b: bool)
    ensures
        b == is_numeral_char(c),
{
    let u = c as u32;
    (48 <= u && u <= 57) || c == '.'
}

/// A cursor over the characters of one expression, handing out one token at
/// a time.
pub struct Tokenizer {
    chars: Vec<char>,
    pos: usize,
}

impl Tokenizer {
    #[verifier::type_invariant]
    spec fn type_inv(self) -> bool {
        self.pos <= self.chars@.len()
    }

    /// The characters being scanned.
    pub closed spec fn text(self) -> Seq<char> {
        self.chars@
    }

    /// The current scan position, in characters.
    pub closed spec fn position(self) -> int {
        self.pos as int
    }

    /// A tokenizer at the start of `expression`.
    pub fn new(expression: &str) -> (t: Tokenizer)
        ensures
            t.text() == expression@,
            t.position() == 0,
    {
        Tokenizer { chars: str_to_chars(expression), pos: 0 }
    }

    /// Advances past whitespace.
    pub fn clear_whitespace(&mut self)
        ensures
            final (self).text() == old(self).text(),
            final (self).position() == skip_ws(old(self).text(), old(self).position()),
    {
        proof {
            use_type_invariant(&*self);
        }
        let ghost s0 = self.chars@;
        let ghost p0 = self.pos as int;
        let n = self.chars.len();
        while self.pos < n && is_space(self.chars[self.pos])
            invariant
                self.chars@ == s0,
                n == s0.len(),
                0 <= p0 <= self.pos <= n,
                skip_ws(s0, p0) == skip_ws(s0, self.pos as int),
            decreases n - self.pos,
        {
            self.pos = self.pos + 1;
        }
    }

    /// Scans the run of lexeme characters at the cursor: `Ok(None)` when the
    /// cursor is not at one, the parsed number with the cursor moved past
    /// the run, or the run's error with the cursor left in place.
    fn scan_number(&mut self) -> (r: Result<Option<Token>, ParseError>)
        ensures
            final (self).text() == old(self).text(),
            ({
                let s = old(self).text();
                let i = old(self).position();
                let k = numeral_end(s, i);
                if i < s.len() && is_numeral_char(s[i]) {
                    match r {
                        Ok(Some(t)) => lexeme_result(s.subrange(i, k)) matches Ok(v) && t@
                            == TokenV::Number(v) && final (self).position() == k,
                        Ok(None) => false,
                        Err(e) => lexeme_result(s.subrange(i, k)) matches Err(f) && e@ == f,
                    }
                } else {
                    r matches Ok(None) && final (self).position() == i
                }
            }),
    {
        proof {
            use_type_invariant(&*self);
        }
        let ghost s0 = self.chars@;
        let ghost p0 = self.pos as int;
        let n = self.chars.len();
        if self.pos >= n || !is_numeral(self.chars[self.pos]) {
            return Ok(None);
        }
        let mut end = self.pos;
        while end < n && is_numeral(self.chars[end])
            invariant
                self.chars@ == s0,
                n == s0.len(),
                0 <= p0 <= end <= n,
                self.pos == p0,
                numeral_end(s0, p0) == numeral_end(s0, end as int),
            decreases n - end,
        {
            end = end + 1;
        }
        let ghost k = numeral_end(s0, p0);
        proof {
            assert(k == end as int);
        }
        let mut buf: Vec<char> = Vec::new();
        let mut j = self.pos;
        proof {
            assert(buf@ =~= s0.subrange(p0, p0));
        }
        while j < end
            invariant
                self.chars@ == s0,
                self.pos == p0,
                0 <= p0 <= j <= end <= n,
                n == s0.len(),
                buf@ == s0.subrange(p0, j as int),
            decreases end - j,
        {
            let c = self.chars[j];
            buf.push(c);
            proof {
                assert(buf@ =~= s0.subrange(p0, j + 1));
            }
            j = j + 1;
        }
        match parse_number(&buf) {
            Ok(x) => {
                self.pos = end;
                Ok(Some(Token::Number(x)))
            },
            Err(e) => Err(e),
        }
    }

    /// Reads the single-character token at the cursor, or reports the
    /// character as invalid. The cursor must stand on a character that is
    /// not part of a numeric lexeme.
    fn scan_operator(&mut self) -> (r: Result<Token, ParseError>)
        requires
            old(self).position() < old(self).text().len(),
            !is_numeral_char(old(self).text()[old(self).position()]),
        ensures
            final (self).text() == old(self).text(),
            ({
                let c = old(self).text()[old(self).position()];
                if is_op_char(c) {
                    r matches Ok(t) && t@ == TokenV::Operator(c) && final (self).position() == old(
                        self,
                    ).position() + 1
                } else if c == '(' {
                    r matches Ok(t) && t@ == TokenV::LeftParen && final (self).position() == old(
                        self,
                    ).position() + 1
                } else if c == ')' {
                    r matches Ok(t) && t@ == TokenV::RightParen && final (self).position() == old(
                        self,
                    ).position() + 1
                } else {
                    r matches Err(e) && e@ == ErrV::InvalidCharacter(c, old(self).position())
                        && final (self).position() == old(self).position()
                }
            }),
    {
        proof {
            use_type_invariant(&*self);
        }
        let n = self.chars.len();
        let c = self.chars[self.pos];
        if c == '+' || c == '-' || c == '*' || c == '/' || c == '^' {
            self.pos = self.pos + 1;
            Ok(Token::Operator(c))
        } else if c == '(' {
            self.pos = self.pos + 1;
            Ok(Token::LeftParen)
        } else if c == ')' {
            self.pos = self.pos + 1;
            Ok(Token::RightParen)
        } else {
            Err(ParseError::InvalidCharacter(c, self.pos))
        }
    }

    /// The next token, per [`next_token`]: `Ok(None)` at the end of input.
    pub fn next(&mut self) -> (r: Result<Option<Token>, ParseError>)
        ensures
            final (self).text() == old(self).text(),
            next_res_matches(
                r,
                next_token(old(self).text(), old(self).position()),
                final (self).position(),
            ),
            r matches Ok(Some(_)) ==> old(self).position() < final (self).position() <= old(
                self,
            ).text().len(),
    {
        proof {
            use_type_invariant(&*self);
            lemma_skip_ws_bounds(old(self).text(), old(self).position());
            lemma_next_token_advances(old(self).text(), old(self).position());
        }
        self.clear_whitespace();
        let n = self.chars.len();
        if self.pos >= n {
            return Ok(None);
        }
        let c = self.chars[self.pos];
        if is_numeral(c) {
            match self.scan_number() {
                Ok(Some(t)) => Ok(Some(t)),
                Ok(None) => {
                    proof {
                        assert(false);
                    }
                    Ok(None)
                },
                Err(e) => Err(e),
            }
        } else {
            match self.scan_operator() {
                Ok(t) => Ok(Some(t)),
                Err(e) => Err(e),
            }
        }
    }
}

/// Tokenizes a whole expression, per [`spec_tokenize`]: the token sequence,
/// or the first error in scan order.
pub fn tokenize(expr: &str) -> (r: Result<Vec<Token>, ParseError>)
    ensures
        tokens_res_matches(r, spec_tokenize(expr@)),
{
    let ghost s = expr@;
    let mut tk = Tokenizer::new(expr);
    let mut out: Vec<Token> = Vec::new();
    proof {
        crate::token::lemma_tokens_view_empty();
    }
    loop
        invariant
            s == expr@,
            tk.text() == s,
            0 <= tk.position() <= s.len(),
            prepend_tokens(tokens_view(out@), toks_from(s, tk.position())) == spec_tokenize(s),
        decreases s.len() - tk.position(),
    {
        let ghost pos = tk.position();
        proof {
            lemma_next_token_advances(s, pos);
        }
        match tk.next() {
            Ok(Some(t)) => {
                proof {
                    let j = tk.position();
                    let rest = toks_from(s, j);
                    crate::token::lemma_tokens_view_push(out@, t);
                    if rest is Ok {
                        assert(toks_from(s, pos) == Ok::<Seq<TokenV>, ErrV>(
                            seq![t@] + rest->Ok_0,
                        ));
                        assert(tokens_view(out@) + (seq![t@] + rest->Ok_0) =~= tokens_view(
                            out@.push(t),
                        ) + rest->Ok_0);
                    } else {
                        assert(toks_from(s, pos) == rest);
                    }
                }
                out.push(t);
            },
            Ok(None) => {
                proof {
                    assert(toks_from(s, pos) == Ok::<Seq<TokenV>, ErrV>(Seq::empty()));
                    assert(tokens_view(out@) + Seq::<TokenV>::empty() =~= tokens_view(out@));
                }
                return Ok(out);
            },
            Err(e) => {
                proof {
                    assert(toks_from(s, pos) == Err::<Seq<TokenV>, ErrV>(e@));
                }
                return Err(e);
            },
        }
    }
}

} // verus!
