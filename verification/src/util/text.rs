//! Texts that grow by one character.

use vstd::prelude::*;

verus! {

/// Calls `String::push`, which appends the character to the end of the string:
/// the string afterwards is the string before with `c` as its new last character.
#[verifier::external_body]
pub(crate) fn push_char(text: &mut String, c: char)
    ensures
        final(text)@ == old(text)@.push(c),
{
    text.push(c);
}

} // verus!
