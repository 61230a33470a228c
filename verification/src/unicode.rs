//! Letters and their case, as the standard library knows them.
//!
//! What the functions of `char` say of a character beyond ASCII comes from the tables of the
//! Unicode standard. Those results have names here; of ASCII characters they are stated.

use vstd::prelude::*;

verus! {

/// Whether a character beyond ASCII is a letter.
pub uninterp spec fn unicode_alphabetic(c: char) -> bool;

/// Whether a character beyond ASCII is in upper case.
pub uninterp spec fn unicode_uppercase(c: char) -> bool;

/// Whether a character beyond ASCII is in lower case.
pub uninterp spec fn unicode_lowercase(c: char) -> bool;

/// A character beyond ASCII in lower case, as one or more characters.
pub uninterp spec fn unicode_to_lowercase(c: char) -> Seq<char>;

/// A character beyond ASCII in upper case, as one or more characters.
pub uninterp spec fn unicode_to_uppercase(c: char) -> Seq<char>;

/// An ASCII character.
pub open spec fn is_ascii_char(c: char) -> bool {
    (c as u32) < 0x80
}

/// A capital letter of ASCII.
pub open spec fn is_ascii_upper(c: char) -> bool {
    'A' <= c && c <= 'Z'
}

/// A small letter of ASCII.
pub open spec fn is_ascii_lower(c: char) -> bool {
    'a' <= c && c <= 'z'
}

/// An ASCII character in lower case.
pub open spec fn ascii_to_lower(c: char) -> char {
    if is_ascii_upper(c) {
        ((c as u32) + 0x20) as char
    } else {
        c
    }
}

/// An ASCII character in upper case.
pub open spec fn ascii_to_upper(c: char) -> char {
    if is_ascii_lower(c) {
        ((c as u32) - 0x20) as char
    } else {
        c
    }
}

/// A letter.
pub open spec fn is_letter(c: char) -> bool {
    if is_ascii_char(c) {
        is_ascii_upper(c) || is_ascii_lower(c)
    } else {
        unicode_alphabetic(c)
    }
}

/// A character in upper case.
pub open spec fn is_upper(c: char) -> bool {
    if is_ascii_char(c) {
        is_ascii_upper(c)
    } else {
        unicode_uppercase(c)
    }
}

/// A character in lower case.
pub open spec fn is_lower(c: char) -> bool {
    if is_ascii_char(c) {
        is_ascii_lower(c)
    } else {
        unicode_lowercase(c)
    }
}

/// A character in lower case, which may be several.
pub open spec fn to_lower(c: char) -> Seq<char> {
    if is_ascii_char(c) {
        seq![ascii_to_lower(c)]
    } else {
        unicode_to_lowercase(c)
    }
}

/// A character in upper case, which may be several.
pub open spec fn to_upper(c: char) -> Seq<char> {
    if is_ascii_char(c) {
        seq![ascii_to_upper(c)]
    } else {
        unicode_to_uppercase(c)
    }
}

/// `char::is_alphabetic`: of ASCII characters, the letters have the property. Of the others the
/// result is named.
pub assume_specification[ char::is_alphabetic ](c: char) -> (r: bool)
    ensures
        is_ascii_char(c) ==> r == (is_ascii_upper(c) || is_ascii_lower(c)),
        !is_ascii_char(c) ==> r == unicode_alphabetic(c),
;

/// `char::is_uppercase`: of ASCII characters, the capital letters have the property. Of the others
/// the result is named.
pub assume_specification[ char::is_uppercase ](c: char) -> (r: bool)
    ensures
        is_ascii_char(c) ==> r == is_ascii_upper(c),
        !is_ascii_char(c) ==> r == unicode_uppercase(c),
;

/// `char::is_lowercase`: of ASCII characters, the small letters have the property. Of the others
/// the result is named.
pub assume_specification[ char::is_lowercase ](c: char) -> (r: bool)
    ensures
        is_ascii_char(c) ==> r == is_ascii_lower(c),
        !is_ascii_char(c) ==> r == unicode_lowercase(c),
;

/// Calls `char::to_lowercase`: capital letters of ASCII become small ones, other ASCII characters
/// stay. Of the others the result is named; the standard library documents that it is never empty.
#[verifier::external_body]
pub(crate) fn lower_chars(c: char) -> (r: Vec<char>)
    ensures
        is_ascii_char(c) ==> r@ == seq![ascii_to_lower(c)],
        !is_ascii_char(c) ==> r@ == unicode_to_lowercase(c),
        r@.len() >= 1,
{
    c.to_lowercase().collect()
}

/// Calls `char::to_uppercase`: small letters of ASCII become capital ones, other ASCII characters
/// stay. Of the others the result is named; the standard library documents that it is never empty.
#[verifier::external_body]
pub(crate) fn upper_chars(c: char) -> (r: Vec<char>)
    ensures
        is_ascii_char(c) ==> r@ == seq![ascii_to_upper(c)],
        !is_ascii_char(c) ==> r@ == unicode_to_uppercase(c),
        r@.len() >= 1,
{
    c.to_uppercase().collect()
}

} // verus!
