//! Character classification: the predicates that decide which characters the
//! encoder leaves unescaped and which characters the strict decoders accept.

use vstd::prelude::*;

verus! {

/// The reserved set: characters exempted from escaping by policy even though
/// they are not alphanumeric.
pub open spec fn is_reserved_char(c: char) -> bool {
    c == '-' || c == '.' || c == '_' || c == '~'
}

/// An ASCII decimal digit.
pub open spec fn is_ascii_digit_char(c: char) -> bool {
    0x30 <= c as u32 <= 0x39
}

/// An ASCII letter, of either case.
pub open spec fn is_ascii_letter_char(c: char) -> bool {
    0x41 <= c as u32 <= 0x5A || 0x61 <= c as u32 <= 0x7A
}

/// The characters the plain encoder emits unchanged: ASCII alphanumerics and
/// the reserved set.
pub open spec fn is_unreserved_char(c: char) -> bool {
    is_ascii_letter_char(c) || is_ascii_digit_char(c) || is_reserved_char(c)
}

/// Whether the given character belongs to the reserved set `- . _ ~`.
pub fn is_reserved(c: char) -> (r: bool)
    ensures
        r == is_reserved_char(c),
{
    c == '-' || c == '.' || c == '_' || c == '~'
}

/// Whether the given character is the one character the form/URL dialect
/// writes as `+`: the ASCII space.
pub fn is_whitespace(c: char) -> (r: bool)
    ensures
        r == (c == ' '),
{
    c == ' '
}

/// Whether the given character is one the plain encoder leaves unescaped.
pub fn is_unreserved(c: char) -> (r: bool)
    ensures
        r == is_unreserved_char(c),
{
    let u = c as u32;
    (0x41 <= u && u <= 0x5A) || (0x61 <= u && u <= 0x7A) || (0x30 <= u && u <= 0x39)
        || is_reserved(c)
}

/// Whether the given character counts as alphanumeric under the broad,
/// Unicode-aware definition used by the strict decoders. The full character
/// class is far too large to write out, so it is left as a named predicate
/// that only [`is_unicode_alphanumeric`] is trusted to decide.
pub uninterp spec fn unicode_alphanumeric(c: char) -> bool;

/// Relies on char::is_alphanumeric: the result depends on the character alone.
#[verifier::external_body]
pub(crate) fn is_unicode_alphanumeric(c: char) -> (r: bool)
    ensures
        r == unicode_alphanumeric(c),
{
    c.is_alphanumeric()
}

} // verus!
