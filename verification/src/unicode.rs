//! Character classification and string building from the standard library.

use vstd::prelude::*;

verus! {

/// Whether `c` is alphanumeric in the sense of the Unicode character database.
pub uninterp spec fn alphanumeric(c: char) -> bool;

/// Whether `c` has the Unicode property `White_Space`.
pub uninterp spec fn whitespace(c: char) -> bool;

/// `char::is_alphanumeric` decides [`alphanumeric`]. Nothing is claimed about
/// which characters those are.
pub assume_specification[ char::is_alphanumeric ](c: char) -> (b: bool)
    ensures
        b == alphanumeric(c),
;

/// `char::is_whitespace` decides [`whitespace`]. Nothing is claimed about
/// which characters those are.
pub assume_specification[ char::is_whitespace ](c: char) -> (b: bool)
    ensures
        b == whitespace(c),
;

/// The character `c`. A character taken out of a sequence passes through
/// here on its way into a token or a tree: the result is known to be a
/// character, which of an element of a sequence the prover does not see.
pub open spec fn scalar(c: char) -> char {
    c
}

/// `String::push` appends the character to the end of the string.
pub assume_specification[ String::push ](s: &mut String, c: char)
    ensures
        final(s)@ == old(s)@.push(c),
;

/// The characters of `s`, in order.
pub fn chars_of(s: &str) -> (v: Vec<char>)
    ensures
        v@ == s@,
{
    let mut v: Vec<char> = Vec::new();
    for c in it: s.chars()
        invariant
            v@ == it.seq().take(it.index() as int),
    {
        v.push(c);
    }
    v
}

} // verus!
