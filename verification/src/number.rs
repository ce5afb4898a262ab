//! Decimal numeric lexemes: what a run of digits and dots means, and a
//! verified parser from such a run to a [`Rational`].
//!
//! A lexeme is valid when it consists of digits and at most one decimal
//! point, with at least one digit. Its value is the digit string with the
//! point removed, scaled by ten to the number of fractional digits.

use vstd::prelude::*;

verus! {

use vstd::arithmetic::power::pow;
use crate::error::{ErrV, ParseError};
use crate::rational::{rat_fits, RatV, Rational};
use crate::strutil::chars_to_string;

pub open spec fn is_digit(c: char) -> bool {
    48 <= c as u32 <= 57
}

pub open spec fn digit_val(c: char) -> int {
    c as u32 - 48
}

/// A character that may appear in a numeric lexeme.
pub open spec fn is_numeral_char(c: char) -> bool {
    is_digit(c) || c == '.'
}

pub open spec fn all_numeral(s: Seq<char>) -> bool {
    forall|k: int| 0 <= k < s.len() ==> is_numeral_char(#[trigger] s[k])
}

pub open spec fn all_digits(s: Seq<char>) -> bool {
    forall|k: int| 0 <= k < s.len() ==> is_digit(#[trigger] s[k])
}

/// The digits of `s`, in order, with everything else dropped.
pub open spec fn just_digits(s: Seq<char>) -> Seq<char>
    decreases s.len(),
{
    if s.len() == 0 {
        Seq::empty()
    } else if is_digit(s.last()) {
        just_digits(s.drop_last()).push(s.last())
    } else {
        just_digits(s.drop_last())
    }
}

/// The number a digit string denotes in base ten.
pub open spec fn digits_val(s: Seq<char>) -> int
    decreases s.len(),
{
    if s.len() == 0 {
        0
    } else {
        digits_val(s.drop_last()) * 10 + digit_val(s.last())
    }
}

/// Index of the first decimal point, or the length when there is none.
pub open spec fn first_dot(s: Seq<char>) -> int
    decreases s.len(),
{
    if s.len() == 0 {
        0
    } else if s[0] == '.' {
        0
    } else {
        1 + first_dot(s.drop_first())
    }
}

/// How many characters follow the first decimal point.
pub open spec fn frac_len(s: Seq<char>) -> int {
    if first_dot(s) < s.len() {
        s.len() - 1 - first_dot(s)
    } else {
        0
    }
}

pub open spec fn pow10(k: nat) -> int {
    pow(10, k)
}

/// A valid numeric lexeme: nonempty, only digits and dots, at most one dot,
/// at least one digit.
pub open spec fn valid_lexeme(s: Seq<char>) -> bool {
    &&& s.len() >= 1
    &&& all_numeral(s)
    &&& s.len() - just_digits(s).len() <= 1
    &&& just_digits(s).len() >= 1
}

/// The rational a valid lexeme denotes: its digits with the point removed,
/// over ten to the number of fractional digits.
pub open spec fn lexeme_rat(s: Seq<char>) -> RatV {
    RatV { num: digits_val(just_digits(s)), den: pow10(frac_len(s) as nat) }
}

/// What parsing a numeric lexeme yields: its value, `InvalidNumber` for an
/// invalid lexeme, `Overflow` when the value's components exceed 64 bits.
pub open spec fn lexeme_result(s: Seq<char>) -> Result<RatV, ErrV> {
    if !valid_lexeme(s) {
        Err(ErrV::InvalidNumber(s))
    } else if !rat_fits(lexeme_rat(s)) {
        Err(ErrV::Overflow)
    } else {
        Ok(lexeme_rat(s))
    }
}

pub proof fn lemma_just_digits_push(s: Seq<char>, c: char)
    ensures
        is_digit(c) ==> just_digits(s.push(c)) == just_digits(s).push(c),
        !is_digit(c) ==> just_digits(s.push(c)) == just_digits(s),
{
    assert(s.push(c).drop_last() =~= s);
}

pub proof fn lemma_digits_val_push(s: Seq<char>, c: char)
    ensures
        digits_val(s.push(c)) == digits_val(s) * 10 + digit_val(c),
{
    assert(s.push(c).drop_last() =~= s);
}

pub proof fn lemma_just_digits_are_digits(s: Seq<char>)
    ensures
        all_digits(just_digits(s)),
    decreases s.len(),
{
    if s.len() > 0 {
        lemma_just_digits_are_digits(s.drop_last());
    }
}

pub proof fn lemma_digits_val_nonneg(s: Seq<char>)
    requires
        all_digits(s),
    ensures
        digits_val(s) >= 0,
    decreases s.len(),
{
    if s.len() > 0 {
        assert(all_digits(s.drop_last()));
        lemma_digits_val_nonneg(s.drop_last());
        assert(digits_val(s.drop_last()) * 10 >= 0);
    }
}

/// The value of the digits of a prefix never exceeds the value of the
/// digits of the whole.
pub proof fn lemma_digits_val_extend(s: Seq<char>, j: int)
    requires
        0 <= j <= s.len(),
    ensures
        digits_val(just_digits(s.subrange(0, j))) <= digits_val(just_digits(s)),
    decreases s.len() - j,
{
    if j == s.len() {
        assert(s.subrange(0, j) =~= s);
    } else {
        lemma_digits_val_extend(s, j + 1);
        assert(s.subrange(0, j + 1) =~= s.subrange(0, j).push(s[j]));
        lemma_just_digits_push(s.subrange(0, j), s[j]);
        let p = just_digits(s.subrange(0, j));
        lemma_just_digits_are_digits(s.subrange(0, j));
        lemma_digits_val_nonneg(p);
        if is_digit(s[j]) {
            lemma_digits_val_push(p, s[j]);
            assert(digits_val(p) * 10 >= digits_val(p));
        }
    }
}

/// How the first-dot position changes when one character is appended.
pub proof fn lemma_first_dot_push(s: Seq<char>, c: char)
    ensures
        first_dot(s) < s.len() ==> first_dot(s.push(c)) == first_dot(s),
        first_dot(s) >= s.len() && c == '.' ==> first_dot(s.push(c)) == s.len(),
        first_dot(s) >= s.len() && c != '.' ==> first_dot(s.push(c)) == s.len() + 1,
    decreases s.len(),
{
    if s.len() == 0 {
        assert(s.push(c)[0] == c);
        assert(s.push(c).drop_first() =~= Seq::<char>::empty());
        if c != '.' {
            assert(first_dot(s.push(c)) == 1 + first_dot(Seq::<char>::empty()));
        }
    } else {
        assert(s.push(c)[0] == s[0]);
        assert(s.push(c).drop_first() =~= s.drop_first().push(c));
        lemma_first_dot_push(s.drop_first(), c);
        if s[0] != '.' {
            assert(first_dot(s) == 1 + first_dot(s.drop_first()));
            assert(first_dot(s.push(c)) == 1 + first_dot(s.drop_first().push(c)));
        }
    }
}

/// The first-dot position is never negative and never beyond the length.
pub proof fn lemma_first_dot_bounds(s: Seq<char>)
    ensures
        0 <= first_dot(s) <= s.len(),
    decreases s.len(),
{
    if s.len() > 0 && s[0] != '.' {
        lemma_first_dot_bounds(s.drop_first());
    }
}

/// Parses a run of lexeme characters, per [`lexeme_result`].
pub fn parse_number(buf: &Vec<char>) -> (r: Result<Rational, ParseError>)
    ensures
        match r {
            Ok(x) => lexeme_result(buf@) == Ok::<RatV, ErrV>(x@),
            Err(e) => lexeme_result(buf@) == Err::<RatV, ErrV>(e@),
        },
{
    let s = Ghost(buf@);
    let n = buf.len();
    // Classify the run: count digits, find the first dot, check every
    // character is a digit or a dot.
    let mut digits: usize = 0;
    let mut dot_found = false;
    let mut dot_pos: usize = 0;
    let mut i: usize = 0;
    while i < n
        invariant
            0 <= i <= n,
            n == s@.len(),
            s@ == buf@,
            all_numeral(s@.subrange(0, i as int)),
            digits == just_digits(s@.subrange(0, i as int)).len(),
            digits <= i,
            !dot_found ==> first_dot(s@.subrange(0, i as int)) == i,
            dot_found ==> dot_pos < i && first_dot(s@.subrange(0, i as int)) == dot_pos,
        decreases n - i,
    {
        let c = buf[i];
        proof {
            assert(s@.subrange(0, i + 1) =~= s@.subrange(0, i as int).push(s@[i as int]));
            lemma_just_digits_push(s@.subrange(0, i as int), s@[i as int]);
            lemma_first_dot_push(s@.subrange(0, i as int), s@[i as int]);
        }
        let u = c as u32;
        if 48 <= u && u <= 57 {
            digits = digits + 1;
        } else if c == '.' {
            if !dot_found {
                dot_found = true;
                dot_pos = i;
            }
        } else {
            proof {
                assert(!valid_lexeme(s@));
            }
            return Err(ParseError::InvalidNumber(chars_to_string(buf)));
        }
        i = i + 1;
    }
    proof {
        assert(s@.subrange(0, n as int) =~= s@);
    }
    if n == 0 || digits == 0 || n - digits > 1 {
        return Err(ParseError::InvalidNumber(chars_to_string(buf)));
    }
    proof {
        assert(valid_lexeme(s@));
        lemma_just_digits_are_digits(s@);
    }
    // Accumulate the digits, skipping the dot; stop as soon as the value
    // cannot fit.
    let mut num: i64 = 0;
    let mut j: usize = 0;
    proof {
        assert(s@.subrange(0, 0) =~= Seq::<char>::empty());
    }
    while j < n
        invariant
            0 <= j <= n,
            n == s@.len(),
            s@ == buf@,
            all_numeral(s@),
            valid_lexeme(s@),
            num as int == digits_val(just_digits(s@.subrange(0, j as int))),
            num >= 0,
        decreases n - j,
    {
        let c = buf[j];
        proof {
            assert(s@.subrange(0, j + 1) =~= s@.subrange(0, j as int).push(s@[j as int]));
            lemma_just_digits_push(s@.subrange(0, j as int), s@[j as int]);
            assert(is_numeral_char(s@[j as int]));
        }
        if c != '.' {
            let u = c as u32;
            let d: i64 = (u - 48) as i64;
            let next: i128 = num as i128 * 10 + d as i128;
            proof {
                lemma_digits_val_push(just_digits(s@.subrange(0, j as int)), s@[j as int]);
            }
            if next > i64::MAX as i128 {
                proof {
                    assert(next as int == digits_val(just_digits(s@.subrange(0, j + 1))));
                    lemma_digits_val_extend(s@, j + 1);
                    assert(digits_val(just_digits(s@)) > i64::MAX);
                    assert(!rat_fits(lexeme_rat(s@)));
                }
                return Err(ParseError::Overflow);
            }
            num = next as i64;
        }
        j = j + 1;
    }
    proof {
        assert(s@.subrange(0, n as int) =~= s@);
        lemma_first_dot_bounds(s@);
    }
    // The denominator: ten to the number of digits after the dot.
    let mut den: i64 = 1;
    proof {
        vstd::arithmetic::power::lemma_pow0(10);
    }
    if dot_found {
        let mut k: usize = dot_pos + 1;
        while k < n
            invariant
                dot_pos < k <= n,
                n == s@.len(),
                s@ == buf@,
                valid_lexeme(s@),
                den as int == pow10((k - dot_pos - 1) as nat),
                1 <= den,
                first_dot(s@) == dot_pos,
            decreases n - k,
        {
            let wide: i128 = den as i128 * 10;
            proof {
                lemma_pow10_step((k - dot_pos - 1) as nat);
            }
            if wide > i64::MAX as i128 {
                proof {
                    assert(frac_len(s@) == n - 1 - dot_pos);
                    lemma_pow10_le((k - dot_pos) as nat, frac_len(s@) as nat);
                    assert(pow10(frac_len(s@) as nat) > i64::MAX);
                    assert(!rat_fits(lexeme_rat(s@)));
                }
                return Err(ParseError::Overflow);
            }
            den = wide as i64;
            k = k + 1;
        }
        proof {
            assert(frac_len(s@) == n - 1 - dot_pos);
        }
    } else {
        proof {
            assert(first_dot(s@) == n);
            assert(frac_len(s@) == 0);
        }
    }
    proof {
        lemma_digits_val_nonneg(just_digits(s@));
    }
    match Rational::new(num, den) {
        Some(x) => Ok(x),
        None => {
            proof {
                assert(false);
            }
            Err(ParseError::Overflow)
        },
    }
}

/// One more fractional digit multiplies the denominator by ten.
proof fn lemma_pow10_step(k: nat)
    ensures
        pow10(k + 1) == pow10(k) * 10,
{
    reveal(pow);
    vstd::arithmetic::power::lemma_pow1(10);
    vstd::arithmetic::power::lemma_pow_adds(10, k, 1);
}

/// Powers of ten are positive and monotone in the exponent.
proof fn lemma_pow10_le(k1: nat, k2: nat)
    requires
        k1 <= k2,
    ensures
        1 <= pow10(k1) <= pow10(k2),
{
    vstd::arithmetic::power::lemma_pow_positive(10, k1);
    vstd::arithmetic::power::lemma_pow_increases(10, k1, k2);
}

} // verus!
