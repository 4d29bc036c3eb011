//! The session store: an expiring cache from connection identities to
//! sessions, each living for its own `session_time` seconds.
use vstd::prelude::*;

use crate::auth::Session;
use crate::storage::{
    live_value, set_rows, stored, unique_keys, CacheKey, ConnectionHash, ExpiringValue, Storage,
    EXPIRED_FLUSH_INTERVAL,
};

verus! {

/// Sessions indexed by [`ConnectionHash`], each entry expiring after the
/// session's own `session_time` seconds.
pub struct SessionStorage {
    inner: Storage<ConnectionHash, Session>,
}

impl SessionStorage {
    /// The underlying cache state.
    pub closed spec fn cache(&self) -> Storage<ConnectionHash, Session> {
        self.inner
    }

    pub open spec fn wf(&self) -> bool {
        self.cache().wf()
    }

    /// An empty store whose sweep clock starts at `now`.
    pub fn new(now: u64) -> (r: Self)
        ensures
            r.wf(),
            r.cache().rows() == Seq::<(ConnectionHash, ExpiringValue<Session>)>::empty(),
            r.cache().last_flush_spec() == now,
            r.cache().flush_interval_spec() == EXPIRED_FLUSH_INTERVAL,
    {
        SessionStorage { inner: Storage::new(now) }
    }

    /// Stores `session` under `conn_hash` with the session's own
    /// `session_time` as its duration, and returns the session it displaced,
    /// if one survived the due sweep.
    pub fn insert_session(&mut self, conn_hash: ConnectionHash, session: Session, now: u64) -> (r:
        Option<Session>)
        requires
            old(self).wf(),
        ensures
            final(self).wf(),
            final(self).cache().rows() == set_rows(
                old(self).cache().flushed_rows(now),
                conn_hash,
                session,
                session@.session_time,
                now,
            ),
            final(self).cache().flush_interval_spec() == old(self).cache().flush_interval_spec(),
            final(self).cache().last_flush_spec() == if old(self).cache().should_flush(now) {
                now
            } else {
                old(self).cache().last_flush_spec()
            },
            r == match stored(old(self).cache().flushed_rows(now), conn_hash.key_id()) {
                Some(e) => Some(e.inner),
                None => None::<Session>,
            },
    {
        let d = session.session_time();
        self.inner.set_with_duration(conn_hash, session, d, now)
    }

    /// The live session under `conn_hash` at `now`, if any.
    pub fn get_session(&self, conn_hash: &ConnectionHash, now: u64) -> (r: Option<&Session>)
        ensures
            match r {
                Some(s) => live_value(self.cache().rows(), conn_hash.key_id(), now) == Some(*s),
                None => live_value(self.cache().rows(), conn_hash.key_id(), now) is None,
            },
    {
        self.inner.get(conn_hash, now)
    }
}

/// Idempotence of CONNECT: two successive inserts under one connection
/// identity leave exactly one entry for it, holding the second session with
/// the second's `session_time` as its duration, timestamped by the second
/// insert.
pub proof fn lemma_connect_idempotent(
    rows: Seq<(ConnectionHash, ExpiringValue<Session>)>,
    k1: ConnectionHash,
    k2: ConnectionHash,
    s1: Session,
    s2: Session,
    t1: u64,
    t2: u64,
)
    requires
        unique_keys(rows),
        k1.key_id() == k2.key_id(),
    ensures
        ({
            let once = set_rows(rows, k1, s1, s1@.session_time, t1);
            let twice = set_rows(once, k2, s2, s2@.session_time, t2);
            unique_keys(twice) && stored(twice, k2.key_id()) == Some(
                (ExpiringValue { inner: s2, created_at: t2, duration: s2@.session_time }),
            )
        }),
{
    let once = set_rows(rows, k1, s1, s1@.session_time, t1);
    crate::storage::lemma_set_rows_unique(rows, k1, s1, s1@.session_time, t1);
    crate::storage::lemma_set_rows_unique(once, k2, s2, s2@.session_time, t2);
    crate::storage::lemma_set_rows_stored(once, k2, s2, s2@.session_time, t2);
}

} // verus!
