//! The chain writer: installs a rewritten body as a single in-memory segment
//! and keeps the response's length header in step with it.
use vstd::prelude::*;

verus! {

/// The length header of a response body.
#[derive(Debug, Clone, Copy, PartialEq, Eq, Structural)]
pub struct OutputFraming {
    /// The value of the length header, in bytes.
    pub content_length: i64,
}

/// A one-link chain that replaces the original body.
pub struct RebuiltChain {
    /// The bytes of the single segment.
    pub data: Vec<u8>,
    /// The segment lives in the request's memory, not in a file or a
    /// read-only region, so later stages may treat it like any buffer.
    pub in_memory: bool,
}

/// The largest body length a length header can carry.
pub const MAX_FRAMED_LEN: u64 = 0x7fff_ffff_ffff_ffff;

/// Builds the replacement chain for `new_bytes`. While the headers have not
/// been sent, the length header becomes the new length; once they have been
/// sent it is left as it was.
pub fn rebuild(new_bytes: Vec<u8>, headers_sent: bool, framing: &mut OutputFraming) -> (r: RebuiltChain)
    requires
        new_bytes@.len() <= MAX_FRAMED_LEN,
    ensures
        r.data@ == new_bytes@,
        r.in_memory,
        !headers_sent ==> final(framing).content_length == new_bytes@.len(),
        headers_sent ==> *final(framing) == *old(framing),
{
    if !headers_sent {
        framing.content_length = new_bytes.len() as i64;
    }
    RebuiltChain { data: new_bytes, in_memory: true }
}

} // verus!
