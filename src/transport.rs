//! The request that opens a stream, and the one error that ends it.

use vstd::prelude::*;

verus! {

/// The body of a generation request.
pub struct StreamRequest {
    pub model: String,
    pub prompt: String,
    pub stream: bool,
}

impl StreamRequest {
    /// A streaming request for `prompt` to `model`.
    pub fn new(model: String, prompt: String) -> (r: StreamRequest)
        ensures
            r.model@ == model@,
            r.prompt@ == prompt@,
            r.stream,
    {
        StreamRequest { model, prompt, stream: true }
    }
}

/// Why a request produced no result.
pub enum DecodeError {
    /// The connection failed, the server answered with a status outside the
    /// success range, or reading the body failed; the text says which.
    TransportFailure(String),
}

impl DecodeError {
    /// The diagnostic text that the error carries.
    pub fn detail(&self) -> (r: &String)
        ensures
            match self {
                DecodeError::TransportFailure(d) => r@ == d@,
            },
    {
        match self {
            DecodeError::TransportFailure(d) => d,
        }
    }
}

/// Whether an HTTP status code is in the success range.
pub open spec fn is_success(code: u16) -> bool {
    200 <= code <= 299
}

/// Admits a response by its status: `Ok` for a success status, else a
/// transport failure that carries `status_text`. No byte of the body is read
/// before this, so a refused response reports no token.
pub fn check_status(code: u16, status_text: String) -> (r: Result<(), DecodeError>)
    ensures
        r is Ok <==> is_success(code),
        r matches Err(DecodeError::TransportFailure(d)) ==> d@ == status_text@,
{
    if 200 <= code && code <= 299 {
        Ok(())
    } else {
        Err(DecodeError::TransportFailure(status_text))
    }
}

} // verus!
