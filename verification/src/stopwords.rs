//! The fixed stopword list: common English function words that the
//! tokenizer can be asked to leave out of the count.

use vstd::prelude::*;

verus! {

/// The closed, hardcoded stopword set, as a predicate on normalized words.
pub open spec fn is_stopword(w: Seq<char>) -> bool {
    ||| w == "the"@
    ||| w == "and"@
    ||| w == "is"@
    ||| w == "a"@
    ||| w == "an"@
    ||| w == "to"@
    ||| w == "in"@
    ||| w == "on"@
    ||| w == "for"@
    ||| w == "of"@
    ||| w == "with"@
    ||| w == "by"@
    ||| w == "at"@
    ||| w == "it"@
    ||| w == "as"@
    ||| w == "from"@
    ||| w == "this"@
    ||| w == "that"@
    ||| w == "be"@
    ||| w == "or"@
    ||| w == "was"@
    ||| w == "are"@
    ||| w == "not"@
    ||| w == "but"@
}

/// String equality against a literal, through String's specified `==`.
fn str_eql(a: &str, b: &str) -> (r: bool)
    ensures
        r == (a@ == b@),
{
    let sa: String = a.to_owned();
    let sb: String = b.to_owned();
    sa == sb
}

/// Whether `w` is one of the fixed stopwords.
pub fn check_stopword(w: &String) -> (r: bool)
    ensures
        r == is_stopword(w@),
{
    let s = w.as_str();
    str_eql(s, "the") || str_eql(s, "and") || str_eql(s, "is") || str_eql(s, "a")
        || str_eql(s, "an") || str_eql(s, "to") || str_eql(s, "in") || str_eql(s, "on")
        || str_eql(s, "for") || str_eql(s, "of") || str_eql(s, "with") || str_eql(s, "by")
        || str_eql(s, "at") || str_eql(s, "it") || str_eql(s, "as") || str_eql(s, "from")
        || str_eql(s, "this") || str_eql(s, "that") || str_eql(s, "be") || str_eql(s, "or")
        || str_eql(s, "was") || str_eql(s, "are") || str_eql(s, "not") || str_eql(s, "but")
}

} // verus!
