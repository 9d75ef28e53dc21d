//! Character classes and text helpers of the standard library.

use vstd::prelude::*;

verus! {

/// Whether `c` has the Unicode property White_Space.
pub uninterp spec fn whitespace_char(c: char) -> bool;

/// Whether `c` has the Unicode property Alphabetic.
pub uninterp spec fn alphabetic_char(c: char) -> bool;

/// The text `s` between double quotes, escaped as the `Debug` format of a
/// string escapes it.
pub uninterp spec fn debug_quoted(s: Seq<char>) -> Seq<char>;

/// Whether `c` is one of the ten decimal digits.
pub open spec fn decimal_digit(c: char) -> bool {
    '0' <= c <= '9'
}

/// The number of whitespace characters at the start of `s`.
pub open spec fn leading_whitespace(s: Seq<char>) -> nat
    decreases s.len(),
{
    if s.len() > 0 && whitespace_char(s[0]) {
        1 + leading_whitespace(s.drop_first())
    } else {
        0
    }
}

/// The number of whitespace characters at the end of `s`.
pub open spec fn trailing_whitespace(s: Seq<char>) -> nat
    decreases s.len(),
{
    if s.len() > 0 && whitespace_char(s.last()) {
        1 + trailing_whitespace(s.drop_last())
    } else {
        0
    }
}

/// `s` without the whitespace at its start and at its end.
pub open spec fn trimmed(s: Seq<char>) -> Seq<char> {
    let rest = s.skip(leading_whitespace(s) as int);
    rest.take(rest.len() - trailing_whitespace(rest))
}

/// The test that accepts letters.
pub open spec fn letter_class() -> spec_fn(char) -> bool {
    |c: char| alphabetic_char(c)
}

/// The test that accepts whitespace.
pub open spec fn blank_class() -> spec_fn(char) -> bool {
    |c: char| whitespace_char(c)
}

/// The test that accepts decimal digits.
pub open spec fn digit_class() -> spec_fn(char) -> bool {
    |c: char| decimal_digit(c)
}

/// Whitespace at the start of a text is a part of the text.
pub proof fn lemma_leading_whitespace(s: Seq<char>)
    ensures
        leading_whitespace(s) <= s.len(),
    decreases s.len(),
{
    if s.len() > 0 && whitespace_char(s[0]) {
        lemma_leading_whitespace(s.drop_first());
    }
}

/// Whitespace at the end of a text is a part of the text.
pub proof fn lemma_trailing_whitespace(s: Seq<char>)
    ensures
        trailing_whitespace(s) <= s.len(),
    decreases s.len(),
{
    if s.len() > 0 && whitespace_char(s.last()) {
        lemma_trailing_whitespace(s.drop_last());
    }
}

/// What is left of a text without the whitespace at its ends is a stretch
/// of the text.
pub proof fn lemma_trimmed(s: Seq<char>)
    ensures
        leading_whitespace(s) + trimmed(s).len() <= s.len(),
        trimmed(s) == s.subrange(
            leading_whitespace(s) as int,
            (leading_whitespace(s) + trimmed(s).len()) as int,
        ),
{
    lemma_leading_whitespace(s);
    let rest = s.skip(leading_whitespace(s) as int);
    lemma_trailing_whitespace(rest);
    assert(trimmed(s) =~= s.subrange(
        leading_whitespace(s) as int,
        (leading_whitespace(s) + trimmed(s).len()) as int,
    ));
}

/// Calls `char::is_whitespace`, which tells whether a character has the
/// Unicode property White_Space. The contract names that answer.
#[verifier::external_body]
pub(crate) fn is_whitespace(c: char) -> (yes: bool)
    ensures
        yes == whitespace_char(c),
{
    c.is_whitespace()
}

/// Calls `char::is_alphabetic`, which tells whether a character has the
/// Unicode property Alphabetic. The contract names that answer.
#[verifier::external_body]
pub(crate) fn is_alphabetic(c: char) -> (yes: bool)
    ensures
        yes == alphabetic_char(c),
{
    c.is_alphabetic()
}

/// Calls `str::trim`, which returns the slice left when leading and trailing
/// White_Space characters are removed.
#[verifier::external_body]
pub(crate) fn trim<'a>(s: &'a str) -> (rest: &'a str)
    ensures
        rest@ == trimmed(s@),
{
    s.trim()
}

/// Formats `s` with `{:?}`: the text in double quotes, with the escapes of
/// the `Debug` format of `str`. The contract names that result.
#[verifier::external_body]
pub(crate) fn debug_quote(s: &str) -> (quoted: String)
    ensures
        quoted@ == debug_quoted(s@),
{
    format!("{:?}", s)
}

/// Whether `c` is a decimal digit.
pub fn is_decimal_digit(c: char) -> (yes: bool)
    ensures
        yes == decimal_digit(c),
{
    '0' <= c && c <= '9'
}

/// The characters of `text`, in order.
pub fn collect_chars(text: &str) -> (chars: Vec<char>)
    ensures
        chars@ == text@,
{
    let mut chars: Vec<char> = Vec::new();
    for c in it: text.chars()
        invariant
            chars@ == it.seq().take(it.index()),
    {
        chars.push(c);
    }
    chars
}

} // verus!
