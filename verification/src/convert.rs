//! Conversion between the upstream client's response and the proxy-side
//! response: status and version are copied, headers and extensions move, the
//! body is buffered eagerly into bytes.
use vstd::prelude::*;

verus! {

/// The HTTP versions a response can carry.
#[derive(Debug, Clone, Copy, PartialEq, Eq, Structural)]
pub enum HttpVersion {
    Http09,
    Http10,
    Http11,
    Http2,
    Http3,
}

/// A response could not be converted between the upstream and the proxy-side
/// types.
#[derive(Debug, Clone, Copy, PartialEq, Eq, Structural)]
pub struct ConversionError;

/// The plain content of a fully drained upstream response.
pub struct ResponseParts {
    /// The status code as the upstream client reported it.
    pub status: u16,
    /// The negotiated HTTP version.
    pub version: HttpVersion,
    /// The headers, in the order the upstream client yields them.
    pub headers: Vec<(Vec<u8>, Vec<u8>)>,
    /// The body, buffered whole.
    pub body: Vec<u8>,
}

/// The proxy-side response handed back to the framework.
pub struct ProxyResponse {
    /// The status code.
    pub status: u16,
    /// The HTTP version.
    pub version: HttpVersion,
    /// The headers, moved over unchanged.
    pub headers: Vec<(Vec<u8>, Vec<u8>)>,
    /// The body bytes, moved over unchanged.
    pub body: Vec<u8>,
}

/// A status code the proxy-side response type can carry.
pub open spec fn valid_status(status: u16) -> bool {
    100 <= status <= 999
}

/// Converts a drained upstream response to the proxy-side response: status
/// and version are copied, headers and body move unchanged. Fails exactly
/// when the status code is outside the representable range.
pub fn response_upstream_to_proxy(parts: ResponseParts) -> (r: Result<
    ProxyResponse,
    ConversionError,
>)
    ensures
        match r {
            Ok(p) => valid_status(parts.status) && p.status == parts.status && p.version
                == parts.version && p.headers == parts.headers && p.body == parts.body,
            Err(_) => !valid_status(parts.status),
        },
{
    if parts.status < 100 || parts.status > 999 {
        return Err(ConversionError);
    }
    Ok(
        ProxyResponse {
            status: parts.status,
            version: parts.version,
            headers: parts.headers,
            body: parts.body,
        },
    )
}

} // verus!
