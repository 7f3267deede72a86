//! Small helpers for working with text as sequences of characters.

use vstd::prelude::*;

verus! {

/// Appends one character to a string.
///
/// Wraps `String::push`, which the standard library documents as appending
/// the given `char` to the end of the `String`.
#[verifier::external_body]
pub(crate) fn push_char(s: &mut String, c: char)
    ensures
        final(s)@ == old(s)@.push(c),
{
    s.push(c);
}

/// The characters of a string slice, in order.
pub fn chars_of(s: &str) -> (v: Vec<char>)
    ensures
        v@ == s@,
{
    let mut v: Vec<char> = Vec::new();
    for c in it: s.chars()
        invariant
            v@ == it.seq().take(it.index() as int),
    {
        v.push(c);
    }
    v
}

/// The characters `s[a..b]` as a string.
pub fn slice_string(s: &[char], a: usize, b: usize) -> (r: String)
    requires
        a <= b <= s@.len(),
    ensures
        r@ == s@.subrange(a as int, b as int),
{
    let mut r = String::new();
    let mut k = a;
    while k < b
        invariant
            a <= k <= b <= s@.len(),
            r@ == s@.subrange(a as int, k as int),
        decreases b - k,
    {
        push_char(&mut r, s[k]);
        assert(s@.subrange(a as int, k + 1) =~= s@.subrange(a as int, k as int).push(s@[k as int]));
        k = k + 1;
    }
    r
}

} // verus!

verus! {

/// A Unicode scalar value: a code point that is not a surrogate.
pub open spec fn is_scalar_value(v: int) -> bool {
    0 <= v <= 0x10FFFF && !(0xD800 <= v <= 0xDFFF)
}

/// The character with the given code point, if it is a scalar value.
///
/// Wraps `char::from_u32`, which the standard library documents as returning
/// `None` exactly for values above `0x10FFFF` and for surrogates.
#[verifier::external_body]
pub(crate) fn char_from_u32(v: u32) -> (c: Option<char>)
    ensures
        c is Some <==> is_scalar_value(v as int),
        c matches Some(ch) ==> ch as u32 == v,
{
    char::from_u32(v)
}

} // verus!
