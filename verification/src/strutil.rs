//! Small trusted bridges to the parts of the standard library's text handling
//! that vstd gives no specification for.

use vstd::prelude::*;

verus! {

/// Relies on `str::chars` and `Iterator::collect`: the characters of the
/// slice, in order.  The length bound restates the standard library's
/// guarantee that no allocation, a string slice included, exceeds
/// `isize::MAX` bytes; a character occupies at least one byte.
#[verifier::external_body]
pub(crate) fn str_to_chars(s: &str) -> (r: Vec<char>)
    ensures
        r@ == s@,
        r@.len() <= usize::MAX / 2,
{
    s.chars().collect()
}

/// Relies on `Iterator::collect` for `String`: builds the string holding
/// exactly these characters, in order.
#[verifier::external_body]
pub(crate) fn chars_to_string(cs: &Vec<char>) -> (r: String)
    ensures
        r@ == cs@,
{
    cs.iter().cloned().collect()
}

/// Relies on `char::from_u32`: the result is `Some` exactly when the value is
/// a Unicode scalar value (not a surrogate code point, and at most
/// `0x10FFFF`), and the character returned has that code point.
#[verifier::external_body]
pub(crate) fn char_from_u32(u: u32) -> (r: Option<char>)
    ensures
        r is Some <==> (u < 0xD800 || (0xDFFF < u && u <= 0x10FFFF)),
        r matches Some(c) ==> c as u32 == u,
{
    char::from_u32(u)
}

} // verus!
