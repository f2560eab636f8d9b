use vstd::prelude::*;

pub mod clock;
pub mod messages;
pub mod snapshot;
pub mod server;
pub mod codec;
pub mod ui;

verus! {

/// Relies on rand::random: a freshly drawn 64-bit identifier; nothing is promised of its value.
#[verifier::external_body]
pub(crate) fn random_msg_id() -> (r: u64) {
    rand::random::<u64>()
}

/// Relies on String::push: appends one character at the end.
#[verifier::external_body]
pub(crate) fn push_char(out: &mut String, c: char)
    ensures
        final(out)@ == old(out)@.push(c),
{
    out.push(c)
}

} // verus!
