//! Unicode character classes that come from std and from the regex crate:
//! each is a name for what the outside function answers, with the short
//! facts its documentation gives.
use vstd::prelude::*;
use crate::text::is_ascii_alnum;

verus! {

/// What `char::is_alphanumeric` answers (Unicode `Alphabetic` or `Numeric`).
pub uninterp spec fn alnum(c: char) -> bool;

/// What `char::to_lowercase` yields, as a sequence of chars.
pub uninterp spec fn lowercase(c: char) -> Seq<char>;

/// What `char::to_uppercase` yields, as a sequence of chars.
pub uninterp spec fn uppercase(c: char) -> Seq<char>;

/// What `str::to_lowercase` gives: every char lowercased as
/// `char::to_lowercase` does, except that a capital sigma ending a word
/// (after a cased letter and not before one) becomes the final sigma 'ς'.
pub uninterp spec fn str_lowercase(s: Seq<char>) -> Seq<char>;

/// True when `regex::Regex::new(pattern)` compiles and the compiled regex
/// matches somewhere in `text`.
pub uninterp spec fn regex_finds(pattern: Seq<char>, text: Seq<char>) -> bool;

/// `char::is_alphanumeric`. Claimed: the answer is `alnum(c)`, and for an
/// ASCII char it is true exactly for ASCII letters and digits.
#[verifier::external_body]
pub(crate) fn is_alnum_char(c: char) -> (r: bool)
    ensures
        r == alnum(c),
        (c as u32) < 0x80 ==> (r == is_ascii_alnum(c)),
{
    c.is_alphanumeric()
}

/// `char::to_lowercase`, collected. Claimed: the chars are `lowercase(c)`;
/// there is at least one; an ASCII uppercase letter maps to its lowercase
/// letter and any other ASCII char to itself.
#[verifier::external_body]
pub(crate) fn lowercase_of(c: char) -> (r: Vec<char>)
    ensures
        r@ == lowercase(c),
        r@.len() >= 1,
        ('A' <= c <= 'Z') ==> r@ == seq![((c as u32) + 32) as char],
        ((c as u32) < 0x80 && !('A' <= c <= 'Z')) ==> r@ == seq![c],
{
    c.to_lowercase().collect()
}

/// `str::to_lowercase`. Claimed: the text is `str_lowercase(s)`.
#[verifier::external_body]
pub(crate) fn lowercase_str(s: &str) -> (r: String)
    ensures
        r@ == str_lowercase(s@),
{
    s.to_lowercase()
}

/// `char::to_uppercase`, collected. Claimed: the chars are `uppercase(c)`;
/// there is at least one; an ASCII lowercase letter maps to its uppercase
/// letter and any other ASCII char to itself.
#[verifier::external_body]
pub(crate) fn uppercase_of(c: char) -> (r: Vec<char>)
    ensures
        r@ == uppercase(c),
        r@.len() >= 1,
        ('a' <= c <= 'z') ==> r@ == seq![((c as u32) - 32) as char],
        ((c as u32) < 0x80 && !('a' <= c <= 'z')) ==> r@ == seq![c],
{
    c.to_uppercase().collect()
}

/// `regex::Regex::new(pattern)` then `is_match` on the one-char string
/// `c`; a pattern that does not compile answers false. Claimed: the answer
/// is `regex_finds(pattern, [c])`; and, as the regex crate documents its
/// Unicode classes, an ASCII char is a `\d` exactly when it is an ASCII
/// digit and a `\w` exactly when it is an ASCII letter, digit or `_`.
#[verifier::external_body]
pub(crate) fn regex_finds_char(pattern: &str, c: char) -> (r: bool)
    ensures
        r == regex_finds(pattern@, seq![c]),
        pattern@ == "^\\d$"@ && (c as u32) < 0x80 ==> (r == ('0' <= c <= '9')),
        pattern@ == "^\\w$"@ && (c as u32) < 0x80 ==> (r == (is_ascii_alnum(c) || c == '_')),
{
    let mut buf = [0u8; 4];
    match regex::Regex::new(pattern) {
        Ok(re) => re.is_match(c.encode_utf8(&mut buf)),
        Err(_) => false,
    }
}

/// The regex class `\d`: a Unicode decimal digit (`\p{Nd}`).
pub open spec fn is_digit_class(c: char) -> bool {
    regex_finds("^\\d$"@, seq![c])
}

/// The regex class `\w`: a Unicode word char, the class `\b` is about.
pub open spec fn is_word_class(c: char) -> bool {
    regex_finds("^\\w$"@, seq![c])
}

pub fn is_digit_class_char(c: char) -> (r: bool)
    ensures
        r == is_digit_class(c),
        (c as u32) < 0x80 ==> (r == ('0' <= c <= '9')),
{
    regex_finds_char("^\\d$", c)
}

pub fn is_word_class_char(c: char) -> (r: bool)
    ensures
        r == is_word_class(c),
        (c as u32) < 0x80 ==> (r == (is_ascii_alnum(c) || c == '_')),
{
    regex_finds_char("^\\w$", c)
}

} // verus!
