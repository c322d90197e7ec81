//! The shape of a failed request as the service reports it: a plain
//! message that the transport layer wraps into its own error reply.

use vstd::prelude::*;

verus! {

/// A failure carried out of a request handler towards the reply path.
#[derive(Debug)]
pub struct Rejection {
    pub message: String,
}

/// Wrap a failure message for the reply path.
pub fn to(value: String) -> (r: Rejection)
    ensures
        r.message@ == value@,
{
    Rejection { message: value }
}

} // verus!
