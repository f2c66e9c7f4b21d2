//! The trusted boundary to std's Unicode handling.
//!
//! The character classifications and case mappings of std depend on large
//! Unicode tables that no contract should restate.  Each of them is given a
//! name here (an uninterpreted spec function), and a thin wrapper whose
//! contract ties the call's result to that name.  Everything else in this
//! crate is verified against these names.

use vstd::prelude::*;

verus! {

/// Whether `char::is_alphanumeric` accepts `c`.
pub uninterp spec fn alnum(c: char) -> bool;

/// Whether `char::is_whitespace` accepts `c`.
pub uninterp spec fn white(c: char) -> bool;

/// Whether `char::is_uppercase` accepts `c`.
pub uninterp spec fn upper(c: char) -> bool;

/// The uppercase expansion `char::to_uppercase` gives for `c`
/// (possibly more than one character).
pub uninterp spec fn upper_seq_of_char(c: char) -> Seq<char>;

/// The result of `str::to_uppercase` on a string with characters `s`.
pub uninterp spec fn upper_of(s: Seq<char>) -> Seq<char>;

/// The result of `str::to_lowercase` on a string with characters `s`.
pub uninterp spec fn lower_of(s: Seq<char>) -> Seq<char>;

/// Relies on `char::is_alphanumeric`: the Unicode alphanumeric
/// classification of a single character.
#[verifier::external_body]
pub(crate) fn char_is_alnum(c: char) -> (r: bool)
    ensures
        r == alnum(c),
{
    c.is_alphanumeric()
}

/// Relies on `char::is_whitespace`: the Unicode whitespace classification
/// of a single character.
#[verifier::external_body]
pub(crate) fn char_is_white(c: char) -> (r: bool)
    ensures
        r == white(c),
{
    c.is_whitespace()
}

/// Relies on `char::is_uppercase`: the Unicode uppercase classification of
/// a single character.
#[verifier::external_body]
pub(crate) fn char_is_upper(c: char) -> (r: bool)
    ensures
        r == upper(c),
{
    c.is_uppercase()
}

/// Relies on `char::to_uppercase`: the uppercase expansion of one
/// character, which depends on the character alone.
#[verifier::external_body]
pub(crate) fn char_to_upper(c: char) -> (r: String)
    ensures
        r@ == upper_seq_of_char(c),
{
    c.to_uppercase().collect()
}

/// Relies on `str::to_uppercase`: the uppercase form of a string, which
/// depends on its characters alone.
#[verifier::external_body]
pub(crate) fn str_to_upper(s: &str) -> (r: String)
    ensures
        r@ == upper_of(s@),
{
    s.to_uppercase()
}

/// Relies on `str::to_lowercase`: the lowercase form of a string, which
/// depends on its characters alone.
#[verifier::external_body]
pub(crate) fn str_to_lower(s: &str) -> (r: String)
    ensures
        r@ == lower_of(s@),
{
    s.to_lowercase()
}

/// Relies on `str::chars`: the characters of a string, in order; that
/// sequence is exactly the string's view.
#[verifier::external_body]
pub(crate) fn chars_of(s: &str) -> (v: Vec<char>)
    ensures
        v@ == s@,
{
    s.chars().collect()
}

/// Relies on `String::push`: appends one character at the end.
#[verifier::external_body]
pub(crate) fn push_char(s: &mut String, c: char)
    ensures
        final(s)@ == old(s)@.push(c),
{
    s.push(c)
}

} // verus!
