use vstd::prelude::*;
use vstd::utf8::encode_utf8;

verus! {

/// `String::push` from std: appends one character to the string.
#[verifier::external_body]
pub(crate) fn push_char(s: &mut String, c: char)
    ensures
        final(s)@ == old(s)@.push(c),
{
    s.push(c);
}

/// `String::len` from std: the length of the string in bytes of its UTF-8 encoding.
#[verifier::external_body]
pub(crate) fn string_byte_len(s: &String) -> (n: usize)
    ensures
        n as nat == encode_utf8(s@).len(),
{
    s.len()
}

} // verus!
