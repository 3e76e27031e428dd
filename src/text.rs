//! The two `String` operations that the encoder needs and that vstd leaves
//! without a specification.
use vstd::prelude::*;

verus! {

/// Relies on `String::push`: appends `ch` at the end of the string.
#[verifier::external_body]
pub(crate) fn push_char(s: &mut String, ch: char)
    ensures
        final(s)@ == old(s)@.push(ch),
{
    s.push(ch)
}

/// Relies on `String::clear`: removes all contents (capacity is kept).
#[verifier::external_body]
pub(crate) fn clear_string(s: &mut String)
    ensures
        final(s)@ == Seq::<char>::empty(),
{
    s.clear()
}

} // verus!
