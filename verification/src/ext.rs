//! Contracts over outside classification routines the inference and
//! validation logic leans on: calendar formats (chrono) and Unicode character
//! classes (std). Each outcome depends on the arguments alone, so it is given
//! a name that the callers' contracts speak of.

use vstd::prelude::*;

verus! {

/// Whether text `s` parses as a date-and-time under format string `fmt`.
pub uninterp spec fn datetime_matches(s: Seq<char>, fmt: Seq<char>) -> bool;

/// Whether text `s` parses as a calendar date under format string `fmt`.
pub uninterp spec fn date_matches(s: Seq<char>, fmt: Seq<char>) -> bool;

/// Whether a character has the Unicode `Alphabetic` property.
pub uninterp spec fn char_alphabetic(c: char) -> bool;

/// Whether a character is Unicode alphabetic or numeric.
pub uninterp spec fn char_alphanumeric(c: char) -> bool;

/// Relies on chrono::NaiveDateTime::parse_from_str: whether the text reads as
/// a date-and-time under the given format; the outcome is a function of the
/// two texts alone.
#[verifier::external_body]
pub(crate) fn datetime_parses(s: &str, fmt: &str) -> (r: bool)
    ensures
        r == datetime_matches(s@, fmt@),
{
    chrono::NaiveDateTime::parse_from_str(s, fmt).is_ok()
}

/// Relies on chrono::NaiveDate::parse_from_str: whether the text reads as a
/// calendar date under the given format; the outcome is a function of the two
/// texts alone.
#[verifier::external_body]
pub(crate) fn date_parses(s: &str, fmt: &str) -> (r: bool)
    ensures
        r == date_matches(s@, fmt@),
{
    chrono::NaiveDate::parse_from_str(s, fmt).is_ok()
}

/// Relies on char::is_alphabetic: the Unicode `Alphabetic` property. Its
/// documentation gives that ASCII letters have the property and no other
/// ASCII character does.
#[verifier::external_body]
pub(crate) fn is_alphabetic_char(c: char) -> (r: bool)
    ensures
        r == char_alphabetic(c),
        ('a' <= c && c <= 'z') || ('A' <= c && c <= 'Z') ==> r,
        (c as u32) < 128 && !(('a' <= c && c <= 'z') || ('A' <= c && c <= 'Z')) ==> !r,
{
    c.is_alphabetic()
}

/// Relies on char::is_alphanumeric: alphabetic or numeric. Its documentation
/// gives that ASCII letters and digits qualify and no other ASCII character
/// does.
#[verifier::external_body]
pub(crate) fn is_alphanumeric_char(c: char) -> (r: bool)
    ensures
        r == char_alphanumeric(c),
        ('a' <= c && c <= 'z') || ('A' <= c && c <= 'Z') || ('0' <= c && c <= '9') ==> r,
        (c as u32) < 128 && !(('a' <= c && c <= 'z') || ('A' <= c && c <= 'Z') || ('0' <= c && c
            <= '9')) ==> !r,
{
    c.is_alphanumeric()
}

} // verus!
