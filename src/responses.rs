//! Error responses: an HTTP status code with a message.
use vstd::prelude::*;

verus! {

/// The status of a request that could not be understood.
pub const BAD_REQUEST: u16 = 400;

/// The status of a request for something that does not exist.
pub const NOT_FOUND: u16 = 404;

/// The status of a request that failed on the server's side.
pub const INTERNAL_SERVER_ERROR: u16 = 500;

/// The `400 Bad Request` response carrying an error's message.
pub fn bad_request(message: String) -> (r: (u16, String))
    ensures
        r.0 == BAD_REQUEST,
        r.1@ == message@,
{
    (BAD_REQUEST, message)
}

/// The `500 Internal Server Error` response carrying an error's message.
pub fn internal_error(message: String) -> (r: (u16, String))
    ensures
        r.0 == INTERNAL_SERVER_ERROR,
        r.1@ == message@,
{
    (INTERNAL_SERVER_ERROR, message)
}

} // verus!
