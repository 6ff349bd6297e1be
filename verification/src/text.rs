use vstd::prelude::*;

verus! {

/// Relies on str::chars and Iterator::collect: the characters of the
/// string, in order, as a vector.
#[verifier::external_body]
pub(crate) fn chars_of(s: &str) -> (r: Vec<char>)
    ensures
        r@ == s@,
{
    s.chars().collect()
}

/// Relies on Iterator::collect for String: builds the string holding
/// exactly these characters, in order.
#[verifier::external_body]
pub(crate) fn string_from_chars(cs: &Vec<char>) -> (r: String)
    ensures
        r@ == cs@,
{
    cs.iter().collect()
}

/// Relies on char::from_u32: documented to return the character with this
/// code exactly when the code is a Unicode scalar value, that is, not a
/// surrogate and at most 0x10FFFF.
#[verifier::external_body]
pub(crate) fn char_from_u32(v: u32) -> (r: Option<char>)
    ensures
        (v < 0xD800 || (0xE000 <= v && v <= 0x10FFFF)) <==> r is Some,
        r matches Some(c) ==> c as u32 == v && c == v as char,
{
    char::from_u32(v)
}

} // verus!
