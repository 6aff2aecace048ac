//! Conversions between strings and sequences of Unicode scalar values, and
//! the character classes the engine relies on.

use vstd::prelude::*;

verus! {

/// The lower-case form of a sequence of scalar values, as the standard
/// library's Unicode case mapping gives it.
pub uninterp spec fn lowercase_of(s: Seq<char>) -> Seq<char>;

/// Whether the standard library classes a scalar value as alphabetic or
/// numeric.
pub uninterp spec fn alphanumeric(c: char) -> bool;

/// Whether the standard library classes a scalar value as white space.
pub uninterp spec fn white_space(c: char) -> bool;

/// Whether a scalar value separates words: the plain space, or any other
/// white space.
pub open spec fn is_space(c: char) -> bool {
    c == ' ' || white_space(c)
}

/// `char::is_alphanumeric`: the result is the standard library's verdict on
/// `c`, which depends on `c` alone. Nothing more is claimed of it.
pub assume_specification[ char::is_alphanumeric ](c: char) -> (b: bool)
    ensures
        b == alphanumeric(c),
;

/// `char::is_whitespace`: the result is the standard library's verdict on
/// `c`, which depends on `c` alone, and the plain space is white space.
pub assume_specification[ char::is_whitespace ](c: char) -> (b: bool)
    ensures
        b == white_space(c),
        c == ' ' ==> b,
;

/// `String::push`: appends one scalar value to the end of the string.
pub assume_specification[ String::push ](s: &mut String, c: char)
    ensures
        final(s)@ == old(s)@.push(c),
;

/// `str::to_lowercase`: the result is the lower-case form of the whole
/// string, which depends on the string alone. Nothing more is claimed of it.
#[verifier::external_body]
pub(crate) fn lowercase(word: &str) -> (r: String)
    ensures
        r@ == lowercase_of(word@),
{
    word.to_lowercase()
}

/// Whether `c` separates words.
pub fn separates_words(c: char) -> (b: bool)
    ensures
        b == is_space(c),
{
    c.is_whitespace()
}

/// The scalar values of `s`, in order.
pub fn chars_of(s: &str) -> (r: Vec<char>)
    ensures
        r@ == s@,
{
    let mut out: Vec<char> = Vec::new();
    for c in it: s.chars()
        invariant
            out@ == it.seq().take(it.index()),
            it.seq() == s@,
    {
        out.push(c);
    }
    out
}

/// The string that holds the given scalar values, in order.
pub fn string_of(chars: &Vec<char>) -> (r: String)
    ensures
        r@ == chars@,
{
    let mut out = String::new();
    let mut i: usize = 0;
    while i < chars.len()
        invariant
            i <= chars.len(),
            out@ == chars@.take(i as int),
        decreases chars.len() - i,
    {
        out.push(chars[i]);
        assert(chars@.take(i + 1) =~= chars@.take(i as int).push(chars@[i as int]));
        i += 1;
    }
    assert(chars@.take(chars.len() as int) =~= chars@);
    out
}

} // verus!
