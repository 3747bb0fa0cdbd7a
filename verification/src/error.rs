//! The library's error type.
//!
//! Only conditions the core itself detects are represented here; failures of
//! outside services (connections, settlement submissions) are mapped into
//! these variants at the boundary.

use vstd::prelude::*;

verus! {

use vstd::string::StringExecFns;

/// What can go wrong inside the matching core.
#[derive(Debug)]
pub enum Error {
    /// A private key string could not be parsed.
    FuelCryptoPrivParseError,
    /// A settlement submission failed; the payload names the orders involved.
    MatchOrdersError(String),
    /// An order's amount string is not a valid size; the payload is the
    /// offending value.
    OrderAmountParseError(String),
    /// A feed message did not carry the expected payload.
    ProcessMessagePayloadError(String),
    /// Some other string field could not be parsed; the payload is the
    /// offending value.
    StringParsingError(String),
}

impl Error {
    /// Wraps an offending string value, as the feed-parsing paths do.
    pub fn from_parse_failure(s: &str) -> (r: Self)
        ensures
            r matches Error::StringParsingError(m) && m@ == s@,
    {
        Error::StringParsingError(String::from_str(s))
    }
}

} // verus!
