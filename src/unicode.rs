//! Character classification and case mapping from the standard library.
//!
//! The Unicode tables behind these operations are not restated here: each
//! result is given a name that depends on its argument alone, and the rest of
//! the library is proved over those names.
use vstd::prelude::*;

verus! {

/// Whether a character has the Unicode `Alphabetic` property.
pub uninterp spec fn is_letter(c: char) -> bool;

/// Whether a character has the Unicode `Uppercase` property.
pub uninterp spec fn is_upper(c: char) -> bool;

/// Whether a character has the Unicode `White_Space` property.
pub uninterp spec fn is_space(c: char) -> bool;

/// The full Unicode lowercase mapping of a text.
pub uninterp spec fn lower_of(s: Seq<char>) -> Seq<char>;

/// Relies on `char::is_alphabetic`, whose answer depends on the character alone.
#[verifier::external_body]
pub(crate) fn char_is_letter(c: char) -> (r: bool)
    ensures
        r == is_letter(c),
{
    c.is_alphabetic()
}

/// Relies on `char::is_uppercase`, whose answer depends on the character alone.
#[verifier::external_body]
pub(crate) fn char_is_upper(c: char) -> (r: bool)
    ensures
        r == is_upper(c),
{
    c.is_uppercase()
}

/// Relies on `char::is_whitespace`, whose answer depends on the character alone.
#[verifier::external_body]
pub(crate) fn char_is_space(c: char) -> (r: bool)
    ensures
        r == is_space(c),
{
    c.is_whitespace()
}

/// Relies on `str::to_lowercase`, whose result depends on the text alone.
#[verifier::external_body]
pub(crate) fn lowercase(s: &str) -> (r: String)
    ensures
        r@ == lower_of(s@),
{
    s.to_lowercase()
}

/// Relies on `String::push`, which appends one character at the end.
#[verifier::external_body]
pub(crate) fn push_char(s: &mut String, c: char)
    ensures
        final(s)@ == old(s)@.push(c),
{
    s.push(c)
}

} // verus!
