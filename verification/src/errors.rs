//! The two failure kinds of the client: transport failures and API-level
//! failures signalled by a non-2xx status.

use vstd::prelude::*;

verus! {

/// Every failure of a call is exactly one of these.
///
/// `Network` covers anything that prevents obtaining a well-formed response
/// with a body of the expected shape: connection failures, timeouts, and
/// response-body decode failures on the success path. `Api` means the server
/// responded with a non-2xx status; it carries that status and the
/// best-effort message extracted from the response body.
#[derive(Debug, PartialEq, Eq)]
pub enum Error {
    Network { message: String },
    Api { status: u16, message: String },
}

/// Wraps a transport-level failure description, as reported by whatever
/// performed the exchange. The result is always the transport kind, never
/// an API error.
pub fn transport_error(message: String) -> (e: Error)
    ensures
        e matches Error::Network { message: m } && m@ == message@,
{
    Error::Network { message }
}

} // verus!
