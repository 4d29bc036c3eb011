//! Canned responses the proxy writes itself: authentication required,
//! permanent redirect, internal server error. Each has an empty body.
use vstd::prelude::*;

verus! {

/// A response built by the proxy rather than an upstream origin: its status,
/// whether it carries `Proxy-Authenticate: Basic`, and an optional
/// `Location`. The body is always empty.
pub struct CannedResponse {
    /// The HTTP status code.
    pub status: u16,
    /// Whether a `Proxy-Authenticate: Basic` header is sent.
    pub proxy_authenticate_basic: bool,
    /// The `Location` header value, when one is sent.
    pub location: Option<Vec<u8>>,
}

/// 407 Proxy Authentication Required, with `Proxy-Authenticate: Basic` and an
/// empty body.
pub fn auth_needed() -> (r: CannedResponse)
    ensures
        r.status == 407,
        r.proxy_authenticate_basic,
        r.location is None,
{
    CannedResponse { status: 407, proxy_authenticate_basic: true, location: None }
}

/// 308 Permanent Redirect to the given location, with an empty body.
pub fn permanent_redirect(location: Vec<u8>) -> (r: CannedResponse)
    ensures
        r.status == 308,
        !r.proxy_authenticate_basic,
        r.location == Some(location),
{
    CannedResponse { status: 308, proxy_authenticate_basic: false, location: Some(location) }
}

/// 500 Internal Server Error, with no extra header and an empty body.
pub fn internal_server_error() -> (r: CannedResponse)
    ensures
        r.status == 500,
        !r.proxy_authenticate_basic,
        r.location is None,
{
    CannedResponse { status: 500, proxy_authenticate_basic: false, location: None }
}

} // verus!
