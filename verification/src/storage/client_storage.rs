//! The upstream-client store: an expiring cache from client identities to
//! upstream clients, generic over the client type so that any implementation
//! of the execute capability can be cached.
use vstd::prelude::*;

use crate::auth::Session;
use crate::bytes::{append_bytes, bytes_eq, copy_bytes, hex_encode, hex_of};
use crate::storage::{
    find_key, live_value, set_rows, sha1_digest, sha1_of, stored, unique_keys, CacheKey,
    ConnectionHash, ExpiringValue, Storage, EXPIRED_FLUSH_INTERVAL,
};

verus! {

/// The identity that an upstream client is cached under: the lowercase hex
/// form of the SHA-1 digest of connection identity, session id, password and
/// route tag, concatenated.
pub open spec fn client_hash_id(
    conn_id: Seq<u8>,
    session_id: Seq<u8>,
    password: Seq<u8>,
    route_tag: Seq<u8>,
) -> Seq<u8> {
    hex_of(sha1_of(conn_id + session_id + password + route_tag))
}

/// The unique identifier that an upstream client is acquired with: requests
/// of one session that resolve to one route share it.
#[derive(Debug)]
pub struct ClientHash {
    hex: Vec<u8>,
}

impl ClientHash {
    /// The identifying bytes.
    pub closed spec fn id(&self) -> Seq<u8> {
        self.hex@
    }

    /// Derives the identifier. A pure function of the connection identity and
    /// the session's id, password and route tag.
    pub fn new(conn_hash: &ConnectionHash, session: &Session, route_tag: &Vec<u8>) -> (r: Self)
        ensures
            r.id() == client_hash_id(
                conn_hash.id(),
                session@.session_id,
                session@.password,
                route_tag@,
            ),
    {
        let mut data = copy_bytes(conn_hash.as_hex());
        append_bytes(&mut data, session.session_id());
        append_bytes(&mut data, session.password());
        append_bytes(&mut data, route_tag);
        let digest = sha1_digest(&data);
        ClientHash { hex: hex_encode(&digest) }
    }
}

impl CacheKey for ClientHash {
    open spec fn key_id(&self) -> Seq<u8> {
        self.id()
    }

    fn key_eq(&self, other: &Self) -> (r: bool)
        ensures
            r == (self.key_id() == other.key_id()),
    {
        bytes_eq(&self.hex, &other.hex)
    }
}

impl Clone for ClientHash {
    fn clone(&self) -> (r: Self)
        ensures
            r.id() == self.id(),
    {
        ClientHash { hex: copy_bytes(&self.hex) }
    }
}

/// Upstream clients indexed by [`ClientHash`]. The client type is a
/// parameter: anything that can execute a request can be cached.
pub struct ClientStorage<C> {
    inner: Storage<ClientHash, C>,
}

impl<C> ClientStorage<C> {
    /// The underlying cache state.
    pub closed spec fn cache(&self) -> Storage<ClientHash, C> {
        self.inner
    }

    pub open spec fn wf(&self) -> bool {
        self.cache().wf()
    }

    /// An empty store whose sweep clock starts at `now`.
    pub fn new(now: u64) -> (r: Self)
        ensures
            r.wf(),
            r.cache().rows() == Seq::<(ClientHash, ExpiringValue<C>)>::empty(),
            r.cache().last_flush_spec() == now,
            r.cache().flush_interval_spec() == EXPIRED_FLUSH_INTERVAL,
    {
        ClientStorage { inner: Storage::new(now) }
    }

    /// The cached live client under `client_hash` at `now`, after the due
    /// sweep. On a hit whose stored duration differs from the session's
    /// `session_time`, the entry's life restarts at `now` with the session's
    /// time (the session is authoritative); the client itself is never
    /// replaced. A miss returns nothing and changes no row: the caller
    /// builds a fresh client and installs it.
    pub fn acquire_client(&mut self, client_hash: &ClientHash, session_time: u64, now: u64) -> (r:
        Option<&C>)
        requires
            old(self).wf(),
        ensures
            final(self).wf(),
            final(self).cache().flush_interval_spec() == old(self).cache().flush_interval_spec(),
            final(self).cache().last_flush_spec() == if old(self).cache().should_flush(now) {
                now
            } else {
                old(self).cache().last_flush_spec()
            },
            ({
                let f = old(self).cache().flushed_rows(now);
                let i = find_key(f, client_hash.key_id());
                if i >= 0 && !f[i].1.expired_at(now) {
                    r == Some(&f[i].1.inner) && final(self).cache().rows() == (if f[i].1.duration
                        == session_time {
                        f
                    } else {
                        f.update(
                            i,
                            (
                                f[i].0,
                                (ExpiringValue {
                                    inner: f[i].1.inner,
                                    created_at: now,
                                    duration: session_time,
                                }),
                            ),
                        )
                    })
                } else {
                    r is None && final(self).cache().rows() == f
                }
            }),
    {
        self.inner.acquire(client_hash, session_time, now)
    }

    /// The live client under `client_hash` at `now`, if any, without
    /// touching the entry.
    pub fn get_client(&self, client_hash: &ClientHash, now: u64) -> (r: Option<&C>)
        ensures
            match r {
                Some(c) => live_value(self.cache().rows(), client_hash.key_id(), now) == Some(*c),
                None => live_value(self.cache().rows(), client_hash.key_id(), now) is None,
            },
    {
        self.inner.get(client_hash, now)
    }

    /// Installs a freshly built client under `client_hash` with the session's
    /// `session_time` as its duration.
    pub fn install_client(&mut self, client_hash: ClientHash, client: C, session_time: u64, now: u64)
        requires
            old(self).wf(),
        ensures
            final(self).wf(),
            final(self).cache().rows() == set_rows(
                old(self).cache().flushed_rows(now),
                client_hash,
                client,
                session_time,
                now,
            ),
            final(self).cache().flush_interval_spec() == old(self).cache().flush_interval_spec(),
            final(self).cache().last_flush_spec() == if old(self).cache().should_flush(now) {
                now
            } else {
                old(self).cache().last_flush_spec()
            },
    {
        let _displaced = self.inner.set_with_duration(client_hash, client, session_time, now);
    }
}

/// Fingerprint stability: refreshing an entry's duration never replaces the
/// stored client; the client seen under an identity stays the one that was
/// installed, however many times it is acquired.
pub proof fn lemma_acquire_preserves_client<C>(
    f: Seq<(ClientHash, ExpiringValue<C>)>,
    i: int,
    d: u64,
    now: u64,
)
    requires
        unique_keys(f),
        0 <= i < f.len(),
    ensures
        ({
            let g = f.update(
                i,
                (f[i].0, (ExpiringValue { inner: f[i].1.inner, created_at: now, duration: d })),
            );
            stored(g, f[i].0.key_id()) matches Some(e) && e.inner == f[i].1.inner
        }),
{
    let id = f[i].0.key_id();
    let g = f.update(
        i,
        (f[i].0, (ExpiringValue { inner: f[i].1.inner, created_at: now, duration: d })),
    );
    crate::storage::lemma_find_key(g, id);
    assert(g[i].0.key_id() == id);
    let fk = find_key(g, id);
    assert(fk >= 0);
    if fk != i {
        assert(g[fk].0.key_id() == id);
        assert(g[fk].0.key_id() == f[fk].0.key_id());
        assert(f[i].0.key_id() == id);
    }
}

} // verus!
