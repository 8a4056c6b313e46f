//! Character-level facts and the few `std` operations on text that the
//! library relies on without proof.
use vstd::prelude::*;

verus! {

/// Whether a scalar value above the ASCII range has the Unicode
/// `White_Space` property.
pub uninterp spec fn unicode_white_space(c: char) -> bool;

/// The whitespace classification used by the tokenizer. Within ASCII it is
/// the space and the controls from tab to carriage return; above ASCII it is
/// whatever the Unicode `White_Space` property says.
pub open spec fn is_whitespace(c: char) -> bool {
    if c as u32 <= 0x7f {
        c == ' ' || (0x09 <= c as u32 && c as u32 <= 0x0d)
    } else {
        unicode_white_space(c)
    }
}

/// Calls `char::is_whitespace`. Trusted: the result is the `White_Space`
/// property of `c`, spelled out for ASCII (space, and U+0009 to U+000D) and
/// left as the named property above it.
#[verifier::external_body]
pub(crate) fn char_is_whitespace(c: char) -> (r: bool)
    ensures
        r == is_whitespace(c),
        c as u32 > 0x7f ==> r == unicode_white_space(c),
{
    c.is_whitespace()
}

/// `String::push` appends one character to the end of the string.
pub assume_specification[ std::string::String::push ](s: &mut std::string::String, c: char)
    ensures
        final(s)@ == old(s)@.push(c),
;

/// The characters of a text, in order.
pub fn characters(text: &str) -> (v: Vec<char>)
    ensures
        v@ == text@,
{
    let mut v: Vec<char> = Vec::new();
    for c in iter: text.chars()
        invariant
            iter.seq() == text@,
            v@ == iter.seq().take(iter.index() as int),
    {
        v.push(c);
        assert(iter.seq().take(iter.index() as int).push(c) =~= iter.seq().take(
            iter.index() + 1,
        ));
    }
    assert(v@ =~= text@);
    v
}

} // verus!
