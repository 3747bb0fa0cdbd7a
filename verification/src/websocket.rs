//! The handle of the alternative order stream client. Connecting and
//! consuming the stream are network work and live outside the library; the
//! library only carries the endpoint.

use vstd::prelude::*;

verus! {

/// A client of the alternative order stream, identified by its endpoint.
pub struct WebSocketClientSuperchain {
    pub endpoint: String,
}

impl WebSocketClientSuperchain {
    /// A client for the given endpoint.
    pub fn new(endpoint: String) -> (r: Self)
        ensures
            r.endpoint@ == endpoint@,
    {
        WebSocketClientSuperchain { endpoint }
    }
}

} // verus!
