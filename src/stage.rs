//! The stage hooks: run a filter over a body and turn its verdict into the
//! host's control codes.
use vstd::prelude::*;
use crate::chain::BodyError;
use crate::inspect::{segments_contain, some_segment_contains};
use crate::redact::{email_matches, redact_body, redaction, utf8_lossy};
use crate::writer::{rebuild, OutputFraming, RebuiltChain, MAX_FRAMED_LEN};

verus! {

/// What a filter decided about a body.
pub enum Verdict {
    /// The body passes as it is.
    Unchanged,
    /// The body is replaced by these bytes (transformation filters only).
    Transformed(Vec<u8>),
    /// The body is refused (inspection filters only).
    Rejected,
    /// The body could not be read or rewritten.
    InternalError(BodyError),
}

/// What the access stage tells the host.
#[derive(Debug, Clone, Copy, PartialEq, Eq, Structural)]
pub enum AccessCode {
    /// Not handled here; other stages decide.
    Declined,
    /// Finish the request with this status.
    Status(u16),
    /// Finish the request with a server error.
    Error,
}

/// What the output stage hands to the next stage.
pub enum OutputAction {
    /// The original chain, untouched.
    ForwardOriginal,
    /// The rebuilt one-link chain.
    ForwardRebuilt(RebuiltChain),
    /// Nothing: the pass failed.
    Fail(BodyError),
}

/// The status of a request refused for its content.
pub const HTTP_FORBIDDEN: u16 = 403;

/// Body-read results from this value up are final responses of their own.
pub const SPECIAL_RESPONSE: isize = 300;

/// Whether the result of reading the request body is itself the response,
/// to be returned to the host as it is.
pub fn read_result_is_final(rc: isize) -> (r: bool)
    ensures
        r == (rc >= SPECIAL_RESPONSE),
{
    rc >= SPECIAL_RESPONSE
}

/// The inspection filter over the segments of a body: `Rejected` when one
/// segment holds `pat` on its own, else `Unchanged`.
pub fn inspect_segments(segs: &Vec<&[u8]>, pat: &[u8]) -> (r: Verdict)
    ensures
        r is Rejected <==> some_segment_contains(segs@, pat@),
        r is Unchanged <==> !some_segment_contains(segs@, pat@),
{
    if segments_contain(segs, pat) {
        Verdict::Rejected
    } else {
        Verdict::Unchanged
    }
}

/// The access stage's code for an inspection verdict.
pub fn access_code(v: &Verdict) -> (r: AccessCode)
    requires
        !(v is Transformed),
    ensures
        v is Unchanged ==> r == AccessCode::Declined,
        v is Rejected ==> r == AccessCode::Status(HTTP_FORBIDDEN),
        v is InternalError ==> r == AccessCode::Error,
{
    match v {
        Verdict::Unchanged => AccessCode::Declined,
        Verdict::Rejected => AccessCode::Status(HTTP_FORBIDDEN),
        _ => AccessCode::Error,
    }
}

/// Redacts a response body and reports the outcome: `Transformed` with the
/// masked bytes when masking changed the text, else `Unchanged`.
pub fn redaction_verdict(body: &[u8]) -> (r: Verdict)
    ensures
        r is Unchanged || r is Transformed,
        r is Unchanged <==> redaction(utf8_lossy(body@), email_matches(utf8_lossy(body@))) is None,
        r matches Verdict::Transformed(o) ==> redaction(utf8_lossy(body@), email_matches(utf8_lossy(body@)))
            == Some(o@),
{
    match redact_body(body) {
        Some(o) => Verdict::Transformed(o),
        None => Verdict::Unchanged,
    }
}

/// The output stage's action for a transformation verdict. A rewritten body
/// too long for a length header cannot be allocated and fails.
pub fn output_action(v: Verdict, headers_sent: bool, framing: &mut OutputFraming) -> (r: OutputAction)
    requires
        !(v is Rejected),
    ensures
        v is Unchanged ==> r is ForwardOriginal && *final(framing) == *old(framing),
        v matches Verdict::InternalError(e) ==> r == OutputAction::Fail(e) && *final(framing) == *old(framing),
        v matches Verdict::Transformed(o) ==> {
            if o@.len() > MAX_FRAMED_LEN {
                r == OutputAction::Fail(BodyError::AllocFailed) && *final(framing) == *old(framing)
            } else {
                &&& r matches OutputAction::ForwardRebuilt(c)
                &&& c.data@ == o@
                &&& c.in_memory
                &&& !headers_sent ==> final(framing).content_length == c.data@.len()
                &&& headers_sent ==> *final(framing) == *old(framing)
            }
        },
{
    match v {
        Verdict::Transformed(o) => {
            if o.len() as u64 > MAX_FRAMED_LEN {
                OutputAction::Fail(BodyError::AllocFailed)
            } else {
                OutputAction::ForwardRebuilt(rebuild(o, headers_sent, framing))
            }
        },
        Verdict::InternalError(e) => OutputAction::Fail(e),
        _ => OutputAction::ForwardOriginal,
    }
}

/// One pass of the output stage over a body: redact it and hand on either
/// the original chain or the rebuilt one.
pub fn filter_output(body: &[u8], headers_sent: bool, framing: &mut OutputFraming) -> (r: OutputAction)
    ensures
        redaction(utf8_lossy(body@), email_matches(utf8_lossy(body@))) is None ==> r is ForwardOriginal
            && *final(framing) == *old(framing),
        redaction(utf8_lossy(body@), email_matches(utf8_lossy(body@))) matches Some(o) ==> {
            if o.len() > MAX_FRAMED_LEN {
                r == OutputAction::Fail(BodyError::AllocFailed) && *final(framing) == *old(framing)
            } else {
                &&& r matches OutputAction::ForwardRebuilt(c)
                &&& c.data@ == o
                &&& c.in_memory
                &&& !headers_sent ==> final(framing).content_length == o.len()
                &&& headers_sent ==> *final(framing) == *old(framing)
            }
        },
{
    let v = redaction_verdict(body);
    output_action(v, headers_sent, framing)
}

} // verus!
