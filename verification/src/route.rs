//! The router: maps a session to the route tag that partitions its upstream
//! clients.
use vstd::prelude::*;

use crate::auth::{Session, SessionView};
use crate::bytes::copy_bytes;

verus! {

/// The route tag of a session: the default policy segregates upstream
/// clients by the session's country.
pub open spec fn route_tag_of(v: SessionView) -> Seq<u8> {
    v.country
}

/// The route tag used when materialising upstream clients for a session. A
/// pure function of the session's fields — the same session always yields the
/// same tag — and at most 32 bytes for a well-formed session.
pub fn get_route_type(session: &Session) -> (r: Vec<u8>)
    ensures
        r@ == route_tag_of(session@),
        session@.wf() ==> r@.len() <= 32,
{
    copy_bytes(session.country())
}

} // verus!
