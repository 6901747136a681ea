//! Conversions between `String` and character vectors, and the std string
//! operations the library relies on.
use vstd::prelude::*;

verus! {

/// Calls `Iterator::collect` on the characters of `v`; the resulting string
/// holds exactly those characters, in order.
#[verifier::external_body]
pub(crate) fn string_from_chars(v: &Vec<char>) -> (s: String)
    ensures
        s@ == v@,
{
    v.iter().collect()
}

/// The characters of `s`, in order.
pub(crate) fn chars_of(s: &String) -> (v: Vec<char>)
    ensures
        v@ == s@,
{
    broadcast use vstd::string::axiom_spec_iter;
    let mut v: Vec<char> = Vec::new();
    for c in it: s.as_str().chars()
        invariant
            v@ == it.seq().take(it.index() as int),
    {
        v.push(c);
    }
    v
}

/// The two strings hold the same characters.
pub(crate) fn string_eq(a: &String, b: &String) -> (r: bool)
    ensures
        r == (a@ == b@),
{
    a.eq(b)
}

/// A copy of `a`.
pub(crate) fn string_clone(a: &String) -> (r: String)
    ensures
        r@ == a@,
{
    a.clone()
}

/// Calls `std::str::from_utf8`, which succeeds exactly on the byte sequences
/// that are valid UTF-8 and then gives the text they encode.
#[verifier::external_body]
fn utf8_text(bytes: &[u8]) -> (r: Option<&str>)
    ensures
        r is Some <==> vstd::utf8::valid_utf8(bytes@),
        r matches Some(t) ==> t@ == vstd::utf8::decode_utf8(bytes@),
{
    match std::str::from_utf8(bytes) {
        Ok(t) => Some(t),
        Err(_) => None,
    }
}

/// The characters that the bytes encode, when they are valid UTF-8.
pub(crate) fn decode_utf8_chars(bytes: &[u8]) -> (r: Option<Vec<char>>)
    ensures
        r is Some <==> vstd::utf8::valid_utf8(bytes@),
        r matches Some(v) ==> v@ == vstd::utf8::decode_utf8(bytes@),
{
    broadcast use vstd::string::axiom_spec_iter;
    match utf8_text(bytes) {
        None => None,
        Some(t) => {
            let mut v: Vec<char> = Vec::new();
            for c in it: t.chars()
                invariant
                    v@ == it.seq().take(it.index() as int),
            {
                v.push(c);
            }
            Some(v)
        },
    }
}

/// An owned copy of `s`.
pub(crate) fn text(s: &str) -> (r: String)
    ensures
        r@ == s@,
{
    s.to_owned()
}

} // verus!
