//! Cleaning of feed item text before it is passed on: CDATA sections and
//! HTML tags are stripped by fixed regular expressions, then the characters
//! are sanitized one by one.

use vstd::prelude::*;

verus! {

use crate::strutil::{chars_to_string, str_to_chars};

/// What one character contributes to the sanitized text: a newline becomes
/// a space; carriage returns and double quotes are dropped; a right single
/// quotation mark becomes an apostrophe; everything else stays.
pub open spec fn sanitize_char(c: char) -> Seq<char> {
    if c == '\n' {
        seq![' ']
    } else if c == '\r' {
        Seq::empty()
    } else if c == '"' {
        Seq::empty()
    } else if c == '\u{2019}' {
        seq!['\'']
    } else {
        seq![c]
    }
}

/// The sanitized form of a text, character by character.
pub open spec fn sanitize_text(s: Seq<char>) -> Seq<char>
    decreases s.len(),
{
    if s.len() == 0 {
        Seq::empty()
    } else {
        sanitize_text(s.drop_last()) + sanitize_char(s.last())
    }
}

/// The text with every CDATA section removed. The section markers
/// themselves take more space to describe than to match, so the result is
/// named rather than spelled out; it depends on the text alone.
pub uninterp spec fn cdata_stripped_of(s: Seq<char>) -> Seq<char>;

/// The text with every HTML tag removed; it depends on the text alone.
pub uninterp spec fn tags_stripped_of(s: Seq<char>) -> Seq<char>;

/// Relies on `regex::Regex::replace_all` with the fixed, valid pattern
/// `(?i)<!\[CDATA\[.*?\]\]>`: every CDATA wrapper in the text is replaced
/// by nothing, and the result depends on the text alone.
#[verifier::external_body]
fn strip_cdata(text: &str) -> (r: String)
    ensures
        r@ == cdata_stripped_of(text@),
        text@.len() == 0 ==> r@.len() == 0,
{
    let re = regex::Regex::new(r"(?i)<!\[CDATA\[.*?\]\]>").unwrap();
    re.replace_all(text, "").into_owned()
}

/// Relies on `regex::Regex::replace_all` with the fixed, valid pattern
/// `(?i)<[^>]*>`: every HTML tag in the text is replaced by nothing, and
/// the result depends on the text alone.
#[verifier::external_body]
fn strip_tags(text: &str) -> (r: String)
    ensures
        r@ == tags_stripped_of(text@),
        text@.len() == 0 ==> r@.len() == 0,
{
    let re = regex::Regex::new(r"(?i)<[^>]*>").unwrap();
    re.replace_all(text, "").into_owned()
}

/// Sanitizes a string, per [`sanitize_text`]: newlines become spaces,
/// carriage returns and double quotes are removed, right single quotation
/// marks become apostrophes.
pub fn sanitize_string(input: &str) -> (r: String)
    ensures
        r@ == sanitize_text(input@),
{
    let chars = str_to_chars(input);
    let ghost s = input@;
    let n = chars.len();
    let mut out: Vec<char> = Vec::new();
    let mut i: usize = 0;
    proof {
        assert(s.subrange(0, 0) =~= Seq::<char>::empty());
    }
    while i < n
        invariant
            s == input@,
            chars@ == s,
            n == s.len(),
            0 <= i <= n,
            out@ == sanitize_text(s.subrange(0, i as int)),
        decreases n - i,
    {
        let c = chars[i];
        proof {
            assert(s.subrange(0, i + 1) =~= s.subrange(0, i as int).push(s[i as int]));
            assert(s.subrange(0, i + 1).drop_last() =~= s.subrange(0, i as int));
        }
        let ghost before = out@;
        if c == '\n' {
            out.push(' ');
        } else if c == '\r' {
        } else if c == '"' {
        } else if c == '\u{2019}' {
            out.push('\'');
        } else {
            out.push(c);
        }
        proof {
            assert(out@ =~= before + sanitize_char(s[i as int]));
        }
        i = i + 1;
    }
    proof {
        assert(s.subrange(0, n as int) =~= s);
    }
    chars_to_string(&out)
}

/// Cleans one feed item description: CDATA wrappers stripped, then HTML
/// tags stripped, then the text sanitized.
pub fn clean_description(description: &str) -> (r: String)
    ensures
        r@ == sanitize_text(tags_stripped_of(cdata_stripped_of(description@))),
{
    let no_cdata = strip_cdata(description);
    let no_tags = strip_tags(no_cdata.as_str());
    sanitize_string(no_tags.as_str())
}

} // verus!
