//! The calls into the standard library that this crate takes on trust.
//!
//! Which characters are whitespace, which are letters or digits and what a
//! word looks like in lower case is decided by the Unicode tables that ship
//! with the standard library. Nothing in this crate restates those tables:
//! each answer has a name here, and the functions below are the only places
//! where the standard library is asked. Their contracts are not proved.

use crate::listing::ascending;
use vstd::prelude::*;

verus! {

/// What `char::is_whitespace` answers for `c`.
pub uninterp spec fn white_space(c: char) -> bool;

/// What `char::is_alphanumeric` answers for `c`.
pub uninterp spec fn alphanumeric(c: char) -> bool;

/// The characters of what `str::to_lowercase` returns for a string with the
/// characters `s`.
pub uninterp spec fn lowercase(s: Seq<char>) -> Seq<char>;

/// Whether `c` separates words: the space does, and so does every other
/// character that the standard library classifies as whitespace.
pub open spec fn is_whitespace(c: char) -> bool {
    c == ' ' || white_space(c)
}

/// Calls `char::is_whitespace`. Trusted: the result is the library's answer
/// for `c`, and that answer is `true` for the space character.
#[verifier::external_body]
pub(crate) fn char_is_whitespace(c: char) -> (b: bool)
    ensures
        b == white_space(c),
        c == ' ' ==> b,
{
    c.is_whitespace()
}

/// Calls `char::is_alphanumeric`. Trusted: the result is the library's
/// answer for `c`.
#[verifier::external_body]
pub(crate) fn char_is_alphanumeric(c: char) -> (b: bool)
    ensures
        b == alphanumeric(c),
{
    c.is_alphanumeric()
}

/// Calls `str::to_lowercase`. Trusted: the characters of the result are the
/// library's lower-case form of the characters of `s`.
#[verifier::external_body]
pub(crate) fn str_to_lowercase(s: &str) -> (lowered: String)
    ensures
        lowered@ == lowercase(s@),
{
    s.to_lowercase()
}

/// Calls `String::push`. Trusted: `c` is appended to `s` and nothing else
/// changes.
#[verifier::external_body]
pub(crate) fn string_push(s: &mut String, c: char)
    ensures
        final(s)@ == old(s)@.push(c),
{
    s.push(c)
}

/// Calls `sort_unstable` of slices. Trusted: afterwards the vector is in
/// rising order and holds each number as often as before.
#[verifier::external_body]
pub(crate) fn sort_numbers(numbers: &mut Vec<usize>)
    ensures
        ascending(final(numbers)@),
        final(numbers)@.to_multiset() == old(numbers)@.to_multiset(),
{
    numbers.sort_unstable()
}

} // verus!
