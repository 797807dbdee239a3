//! The ways in which proxying a request fails.
use vstd::prelude::*;

verus! {

#[verifier::external_type_specification]
#[verifier::external_body]
pub struct ExHyperError(hyper::Error);

/// Why a request could not be proxied.
#[derive(Debug)]
pub enum ProxyError {
    /// The forwarding URI is no valid URI, or names no authority to send to.
    InvalidUri,
    /// The HTTP client failed to reach the origin or to read its answer.
    HyperError(hyper::Error),
    /// A header that had to be read as text was not, or a header that had to
    /// be written held bytes that no header value may hold.
    ForwardHeaderError,
}

impl From<hyper::Error> for ProxyError {
    fn from(err: hyper::Error) -> ProxyError {
        ProxyError::HyperError(err)
    }
}

impl vstd::std_specs::convert::FromSpecImpl<hyper::Error> for ProxyError {
    open spec fn obeys_from_spec() -> bool {
        true
    }

    open spec fn from_spec(v: hyper::Error) -> ProxyError {
        ProxyError::HyperError(v)
    }
}

} // verus!
