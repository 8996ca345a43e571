use vstd::prelude::*;

verus! {

/// What `char::is_whitespace` returns: the Unicode `White_Space` property.
pub uninterp spec fn is_ws_char(c: char) -> bool;

/// What `char::is_numeric` returns: membership in the Unicode numeric categories.
pub uninterp spec fn is_numeric_char(c: char) -> bool;

/// What `char::is_alphabetic` returns: membership in the Unicode alphabetic categories.
pub uninterp spec fn is_alpha_char(c: char) -> bool;

/// What `char::is_uppercase` returns: the Unicode `Uppercase` property.
pub uninterp spec fn is_upper_char(c: char) -> bool;

/// What `char::to_lowercase` yields: the full Unicode lowercase mapping,
/// a function of the character alone.
pub uninterp spec fn lower_chars_of(c: char) -> Seq<char>;

/// Relies on `char::is_whitespace`: a pure classification, a function of the
/// character alone.
#[verifier::external_body]
pub(crate) fn char_is_whitespace(c: char) -> (r: bool)
    ensures
        r == is_ws_char(c),
{
    c.is_whitespace()
}

/// Relies on `char::is_numeric`: a pure classification, a function of the
/// character alone.
#[verifier::external_body]
pub(crate) fn char_is_numeric(c: char) -> (r: bool)
    ensures
        r == is_numeric_char(c),
{
    c.is_numeric()
}

/// Relies on `char::is_alphabetic`: a pure classification, a function of the
/// character alone.
#[verifier::external_body]
pub(crate) fn char_is_alphabetic(c: char) -> (r: bool)
    ensures
        r == is_alpha_char(c),
{
    c.is_alphabetic()
}

/// Relies on `char::is_uppercase`: a pure classification, a function of the
/// character alone.
#[verifier::external_body]
pub(crate) fn char_is_uppercase(c: char) -> (r: bool)
    ensures
        r == is_upper_char(c),
{
    c.is_uppercase()
}

/// Relies on `char::to_lowercase`: the lowercase mapping of a character is a
/// function of the character alone.
#[verifier::external_body]
pub(crate) fn char_to_lowercase(c: char) -> (r: Vec<char>)
    ensures
        r@ == lower_chars_of(c),
{
    c.to_lowercase().collect()
}

} // verus!
