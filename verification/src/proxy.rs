//! The dispatcher: the per-request state machine. A CONNECT is authenticated
//! and its session stored under the connection identity; any other request is
//! forwarded through the upstream client cached for its session, or answered
//! with a canned response when no session is live.
use vstd::prelude::*;

use crate::auth::{authorize, handle_auth, header_session, SessionView};
use crate::bytes::{starts_with, sub_bytes};
use crate::convert::{valid_status, ProxyResponse, ResponseParts};
use crate::response::{auth_needed, internal_server_error, permanent_redirect, CannedResponse};
use crate::route::{get_route_type, route_tag_of};
use crate::storage::{
    client_hash_id, connection_hash_id, find_key, live_value, set_rows, CacheKey, ClientHash,
    ClientStorage, ConnectionHash, SessionStorage,
};

verus! {

/// The bytes of `http://`.
pub open spec fn http_prefix() -> Seq<u8> {
    seq![104u8, 116u8, 116u8, 112u8, 58u8, 47u8, 47u8]
}

/// Whether a request target is a plain-HTTP absolute URI.
pub open spec fn is_http_uri(uri: Seq<u8>) -> bool {
    uri.len() >= 7 && uri.take(7) == http_prefix()
}

/// The HTTPS equivalent of a plain-HTTP absolute URI: the scheme replaced,
/// everything else kept.
pub open spec fn https_of(uri: Seq<u8>) -> Seq<u8> {
    seq![104u8, 116u8, 116u8, 112u8, 115u8, 58u8, 47u8, 47u8] + uri.skip(7)
}

/// Rewrites a plain-HTTP absolute URI to its HTTPS equivalent; any other
/// target is left alone.
pub fn https_equivalent(uri: &Vec<u8>) -> (r: Option<Vec<u8>>)
    ensures
        is_http_uri(uri@) ==> (r matches Some(u) && u@ == https_of(uri@)),
        !is_http_uri(uri@) ==> r is None,
{
    let mut prefix: Vec<u8> = Vec::new();
    prefix.push(104u8);
    prefix.push(116u8);
    prefix.push(116u8);
    prefix.push(112u8);
    prefix.push(58u8);
    prefix.push(47u8);
    prefix.push(47u8);
    proof {
        assert(prefix@ =~= http_prefix());
    }
    if !starts_with(uri, &prefix) {
        return None;
    }
    let mut out: Vec<u8> = Vec::new();
    out.push(104u8);
    out.push(116u8);
    out.push(116u8);
    out.push(112u8);
    out.push(115u8);
    out.push(58u8);
    out.push(47u8);
    out.push(47u8);
    let uri_len = uri.len();
    let rest = sub_bytes(uri, 7, uri_len);
    crate::bytes::append_bytes(&mut out, &rest);
    proof {
        assert(out@ =~= https_of(uri@));
    }
    Some(out)
}

/// The plain content of one inbound request, as the framework hands it over.
pub struct RequestInfo {
    /// Whether the method is CONNECT.
    pub connect: bool,
    /// The request target, as bytes.
    pub uri: Vec<u8>,
    /// The target host.
    pub host: Vec<u8>,
    /// The client's socket address, in text form.
    pub client_addr: Vec<u8>,
    /// The client's IP alone, in text form.
    pub client_ip: Vec<u8>,
    /// The `Proxy-Authorization` value, when one was sent.
    pub proxy_auth: Option<Vec<u8>>,
}

/// The session a request's authorization header encodes, if any.
pub open spec fn auth_session(req: RequestInfo) -> Option<SessionView> {
    match req.proxy_auth {
        Some(h) => header_session(h@, req.client_addr@),
        None => None,
    }
}

/// What the dispatcher decides for one request.
pub enum Decision {
    /// A CONNECT was authenticated and its session stored: the framework
    /// lets the tunnel pass through.
    PassThrough,
    /// Reply immediately with a canned response.
    Respond(CannedResponse),
    /// Execute the request upstream with the client cached under
    /// `client_key`. When `needs_client` holds, no live client was cached:
    /// the caller builds one and installs it under the key first.
    Forward { client_key: ClientHash, session_time: u64, needs_client: bool },
}

/// An upstream transport failure: the execute did not yield a response.
#[derive(Debug, Clone, Copy, PartialEq, Eq, Structural)]
pub struct UpstreamError;

/// What the proxy writes back for a forwarded request.
pub enum ProxyReply {
    /// A canned response of the proxy's own.
    Canned(CannedResponse),
    /// The converted upstream response.
    Upstream(ProxyResponse),
}

/// The dispatcher's shared state: the session store and the upstream-client
/// store. The client type is a parameter: anything that can execute a
/// request can be cached.
pub struct ProxyHandler<C> {
    client_storage: ClientStorage<C>,
    session_storage: SessionStorage,
}

impl<C> ProxyHandler<C> {
    /// The upstream-client store.
    pub closed spec fn clients(&self) -> ClientStorage<C> {
        self.client_storage
    }

    /// The session store.
    pub closed spec fn sessions(&self) -> SessionStorage {
        self.session_storage
    }

    pub open spec fn wf(&self) -> bool {
        self.clients().wf() && self.sessions().wf()
    }

    /// Wraps the two stores.
    pub fn new(client_storage: ClientStorage<C>, session_storage: SessionStorage) -> (r: Self)
        ensures
            r.clients() == client_storage,
            r.sessions() == session_storage,
    {
        ProxyHandler { client_storage, session_storage }
    }
}

/// Nothing about the client store changed.
pub open spec fn clients_unchanged<C>(a: ClientStorage<C>, b: ClientStorage<C>) -> bool {
    a.cache().rows() == b.cache().rows() && a.cache().last_flush_spec()
        == b.cache().last_flush_spec() && a.cache().flush_interval_spec()
        == b.cache().flush_interval_spec()
}

/// Nothing about the session store changed.
pub open spec fn sessions_unchanged(a: SessionStorage, b: SessionStorage) -> bool {
    a.cache().rows() == b.cache().rows() && a.cache().last_flush_spec()
        == b.cache().last_flush_spec() && a.cache().flush_interval_spec()
        == b.cache().flush_interval_spec()
}

/// The shape of the 407 reply.
pub open spec fn is_auth_needed(c: CannedResponse) -> bool {
    c.status == 407 && c.proxy_authenticate_basic && c.location is None
}

impl<C> ProxyHandler<C> {
    /// One request through the state machine.
    ///
    /// On CONNECT: authenticate; store the session under the connection
    /// identity with its own `session_time` as duration and pass the tunnel
    /// through, or answer 407.
    ///
    /// On any other method: look the session up by the connection identity.
    /// With a live session, decide to forward through the client cached under
    /// the session's client identity, refreshing that entry's duration to the
    /// session's `session_time` on a hit and asking the caller for a fresh
    /// client on a miss. With no live session, redirect a plain-HTTP target
    /// to its HTTPS equivalent, and answer 407 otherwise.
    pub fn handle_request(&mut self, req: &RequestInfo, now: u64) -> (d: Decision)
        requires
            old(self).wf(),
        ensures
            final(self).wf(),
            ({
                let conn_id = connection_hash_id(req.client_ip@, req.host@);
                if req.connect {
                    clients_unchanged(final(self).clients(), old(self).clients())
                        && match auth_session(*req) {
                        Some(v) => d is PassThrough && final(self).sessions().cache().flush_interval_spec() == old(self).sessions().cache().flush_interval_spec() && final(self).sessions().cache().last_flush_spec() == (if old(self).sessions().cache().should_flush(now) {
                            now
                        } else {
                            old(self).sessions().cache().last_flush_spec()
                        }) && (exists|
                            k: ConnectionHash,
                            s: crate::auth::Session,
                        |
                            #![trigger set_rows(old(self).sessions().cache().flushed_rows(now), k, s, v.session_time, now)]
                            k.key_id() == conn_id && s@ == v && final(self).sessions().cache().rows()
                                == set_rows(
                                old(self).sessions().cache().flushed_rows(now),
                                k,
                                s,
                                v.session_time,
                                now,
                            )),
                        None => (d matches Decision::Respond(c) && is_auth_needed(c))
                            && sessions_unchanged(final(self).sessions(), old(self).sessions()),
                    }
                } else {
                    sessions_unchanged(final(self).sessions(), old(self).sessions())
                        && match live_value(old(self).sessions().cache().rows(), conn_id, now) {
                        Some(sess) => ({
                            let v = sess@;
                            let ckid = client_hash_id(
                                conn_id,
                                v.session_id,
                                v.password,
                                route_tag_of(v),
                            );
                            let f = old(self).clients().cache().flushed_rows(now);
                            let i = find_key(f, ckid);
                            d matches Decision::Forward { client_key, session_time, needs_client }
                                && client_key.id() == ckid && session_time == v.session_time
                                && final(self).clients().cache().flush_interval_spec() == old(self).clients().cache().flush_interval_spec()
                                && final(self).clients().cache().last_flush_spec() == (if old(self).clients().cache().should_flush(now) {
                                now
                            } else {
                                old(self).clients().cache().last_flush_spec()
                            }) && (
                            if i >= 0 && !f[i].1.expired_at(now) {
                                !needs_client && final(self).clients().cache().rows() == (if f[i].1.duration == v.session_time {
                                    f
                                } else {
                                    f.update(
                                        i,
                                        (
                                            f[i].0,
                                            (crate::storage::ExpiringValue {
                                                inner: f[i].1.inner,
                                                created_at: now,
                                                duration: v.session_time,
                                            }),
                                        ),
                                    )
                                })
                            } else {
                                needs_client && final(self).clients().cache().rows() == f
                            })
                        }),
                        None => clients_unchanged(final(self).clients(), old(self).clients()) && (
                        if is_http_uri(req.uri@) {
                            d matches Decision::Respond(c) && c.status == 308
                                && !c.proxy_authenticate_basic && (c.location matches Some(l) && l@
                                == https_of(req.uri@))
                        } else {
                            d matches Decision::Respond(c) && is_auth_needed(c)
                        }),
                    }
                }
            }),
    {
        let conn_hash = ConnectionHash::new(&req.client_ip, &req.host);
        let ghost conn_id = connection_hash_id(req.client_ip@, req.host@);
        if req.connect {
            match handle_auth(&req.client_addr, req.proxy_auth.as_ref()) {
                Ok(session) => {
                    if !authorize(&session) {
                        // Unreachable under the default hook, which accepts
                        // every parsed session.
                        return Decision::Respond(auth_needed());
                    }
                    let ghost k0 = conn_hash;
                    let ghost s0 = session;
                    proof {
                        assert(auth_session(*req) == Some(session@));
                    }
                    let _previous = self.session_storage.insert_session(conn_hash, session, now);
                    proof {
                        assert(k0.key_id() == conn_id && s0@ == auth_session(*req)->Some_0
                            && final(self).sessions().cache().rows() == set_rows(
                            old(self).sessions().cache().flushed_rows(now),
                            k0,
                            s0,
                            auth_session(*req)->Some_0.session_time,
                            now,
                        ));
                    }
                    Decision::PassThrough
                },
                Err(_) => {
                    proof {
                        assert(auth_session(*req) is None);
                    }
                    Decision::Respond(auth_needed())
                },
            }
        } else {
            let sess = match self.session_storage.get_session(&conn_hash, now) {
                Some(s) => s.clone(),
                None => {
                    match https_equivalent(&req.uri) {
                        Some(location) => {
                            return Decision::Respond(permanent_redirect(location));
                        },
                        None => {
                            return Decision::Respond(auth_needed());
                        },
                    }
                },
            };
            let route = get_route_type(&sess);
            let client_key = ClientHash::new(&conn_hash, &sess, &route);
            let session_time = sess.session_time();
            let hit = match self.client_storage.acquire_client(&client_key, session_time, now) {
                Some(_) => true,
                None => false,
            };
            Decision::Forward { client_key, session_time, needs_client: !hit }
        }
    }

    /// A response passes back unchanged.
    pub fn handle_response(&mut self, res: ProxyResponse) -> (r: ProxyResponse)
        ensures
            r == res,
            *final(self) == *old(self),
    {
        res
    }

    /// The client cached under `client_key`, live at `now`, for executing the
    /// forwarded request.
    pub fn client_for(&self, client_key: &ClientHash, now: u64) -> (r: Option<&C>)
        ensures
            match r {
                Some(c) => live_value(
                    self.clients().cache().rows(),
                    client_key.id(),
                    now,
                ) == Some(*c),
                None => live_value(self.clients().cache().rows(), client_key.id(), now) is None,
            },
    {
        self.client_storage.get_client(client_key, now)
    }

    /// Installs a freshly built upstream client under `client_key` with the
    /// session's `session_time` as its duration.
    pub fn install_client(&mut self, client_key: ClientHash, client: C, session_time: u64, now: u64)
        requires
            old(self).wf(),
        ensures
            final(self).wf(),
            sessions_unchanged(final(self).sessions(), old(self).sessions()),
            final(self).clients().cache().rows() == set_rows(
                old(self).clients().cache().flushed_rows(now),
                client_key,
                client,
                session_time,
                now,
            ),
    {
        self.client_storage.install_client(client_key, client, session_time, now);
    }
}

/// Turns the outcome of the upstream execute into the proxy's reply: a
/// drained response converts, with status and version copied and headers and
/// body moved; a transport failure, like a response that cannot convert,
/// becomes 500 with an empty body.
pub fn finish_forward(outcome: Result<ResponseParts, UpstreamError>) -> (r: ProxyReply)
    ensures
        match outcome {
            Ok(parts) => if valid_status(parts.status) {
                r matches ProxyReply::Upstream(p) && p.status == parts.status && p.version
                    == parts.version && p.headers == parts.headers && p.body == parts.body
            } else {
                r matches ProxyReply::Canned(c) && c.status == 500 && !c.proxy_authenticate_basic
                    && c.location is None
            },
            Err(_) => r matches ProxyReply::Canned(c) && c.status == 500
                && !c.proxy_authenticate_basic && c.location is None,
        },
{
    match outcome {
        Ok(parts) => match crate::convert::response_upstream_to_proxy(parts) {
            Ok(p) => ProxyReply::Upstream(p),
            Err(_) => ProxyReply::Canned(internal_server_error()),
        },
        Err(_) => ProxyReply::Canned(internal_server_error()),
    }
}

} // verus!
