//! Character classification and case folding.
//!
//! The Unicode tables behind `char::is_whitespace`, `char::is_alphanumeric`
//! and `str::to_lowercase` are far too large to restate, and each result
//! depends on the input alone, so each gets an uninterpreted name that the
//! rest of the library's contracts are phrased over.

use vstd::prelude::*;

verus! {

/// Whether `c` has the Unicode `White_Space` property.
pub uninterp spec fn is_space(c: char) -> bool;

/// Whether `c` is a Unicode letter or digit.
pub uninterp spec fn is_alphanum(c: char) -> bool;

/// The Unicode lowercase conversion of a whole string.
pub uninterp spec fn lower_of(s: Seq<char>) -> Seq<char>;

/// Relies on char::is_whitespace: whether a character has the Unicode
/// White_Space property depends on the character alone.
#[verifier::external_body]
pub(crate) fn is_space_char(c: char) -> (r: bool)
    ensures
        r == is_space(c),
{
    c.is_whitespace()
}

/// Relies on char::is_alphanumeric: whether a character is a Unicode
/// letter or digit depends on the character alone.
#[verifier::external_body]
pub(crate) fn is_alphanum_char(c: char) -> (r: bool)
    ensures
        r == is_alphanum(c),
{
    c.is_alphanumeric()
}

/// Relies on str::to_lowercase: the lowercase conversion depends on the
/// characters alone, and maps each character to one or more characters,
/// so the result is empty exactly when the input is.
#[verifier::external_body]
pub(crate) fn lowercase(s: &str) -> (r: String)
    ensures
        r@ == lower_of(s@),
        r@.len() == 0 <==> s@.len() == 0,
{
    s.to_lowercase()
}

/// Relies on String's FromIterator impl: collecting characters yields the
/// string holding exactly those characters in order.
#[verifier::external_body]
pub(crate) fn chars_to_string(v: &Vec<char>) -> (r: String)
    ensures
        r@ == v@,
{
    v.iter().collect()
}

} // verus!
