//! The expiring, bounded cache substrate shared by the session store and the
//! upstream-client store, and the connection identity that keys it.
//!
//! Time is explicit: every operation takes `now`, a reading of a monotonic
//! clock in seconds. An entry is expired exactly when `now` exceeds its
//! creation time plus its duration. Any mutating operation first sweeps all
//! expired entries when more than the flush interval has passed since the
//! last sweep. An insert into a full cache makes room by sweeping its
//! expired entries, and only when that is not enough by evicting the oldest
//! insertion.
use vstd::prelude::*;
use sha1::Digest;

use crate::bytes::{append_bytes, bytes_eq, copy_bytes, hex_encode, hex_of};

mod client_storage;
mod session_storage;

pub use client_storage::client_hash_id;
pub use client_storage::ClientHash;
pub use client_storage::ClientStorage;
pub use session_storage::SessionStorage;

verus! {

/// The most entries a cache may hold.
pub const CACHE_CAPACITY: usize = 10000;

/// Seconds that must pass between two sweeps of expired entries.
pub const EXPIRED_FLUSH_INTERVAL: u64 = 600;

/// A key of the cache: an identity over bytes with a decidable equality.
pub trait CacheKey: Sized {
    /// The bytes that identify this key.
    spec fn key_id(&self) -> Seq<u8>;

    /// Equality of identities.
    fn key_eq(&self, other: &Self) -> (r: bool)
        ensures
            r == (self.key_id() == other.key_id()),
    ;
}

/// A cached value with its creation time and its time to live, in seconds.
pub struct ExpiringValue<T> {
    /// The value itself.
    pub inner: T,
    /// When the entry was created.
    pub created_at: u64,
    /// How long past its creation the entry stays live.
    pub duration: u64,
}

impl<T> ExpiringValue<T> {
    /// An entry is expired exactly when `now` has passed its creation time
    /// plus its duration.
    pub open spec fn expired_at(&self, now: u64) -> bool {
        now > self.created_at + self.duration
    }

    pub fn is_expired(&self, now: u64) -> (r: bool)
        ensures
            r == self.expired_at(now),
    {
        (now as u128) > (self.created_at as u128) + (self.duration as u128)
    }

    /// The value, the entry given up.
    pub fn take(self) -> (r: T)
        ensures
            r == self.inner,
    {
        self.inner
    }

    /// The value, by reference.
    pub fn get(&self) -> (r: &T)
        ensures
            *r == self.inner,
    {
        &self.inner
    }

    /// The value, by mutable reference.
    pub fn get_mut(&mut self) -> (r: &mut T)
        ensures
            *r == old(self).inner,
    {
        &mut self.inner
    }

    /// Restarts the entry's life at `now` with the new duration.
    pub fn set_duration(&mut self, d: u64, now: u64)
        ensures
            final(self).inner == old(self).inner,
            final(self).created_at == now,
            final(self).duration == d,
    {
        self.created_at = now;
        self.duration = d;
    }
}

/// Pairwise-distinct key identities.
pub open spec fn unique_keys<K: CacheKey, V>(rows: Seq<(K, ExpiringValue<V>)>) -> bool {
    forall|i: int, j: int|
        0 <= i < j < rows.len() ==> (#[trigger] rows[i]).0.key_id() != (#[trigger] rows[j]).0.key_id()
}

/// The position of the entry with the given identity, or -1 when absent.
pub open spec fn find_key<K: CacheKey, V>(rows: Seq<(K, ExpiringValue<V>)>, id: Seq<u8>) -> int
    decreases rows.len(),
{
    if rows.len() == 0 {
        -1
    } else if rows[0].0.key_id() == id {
        0
    } else {
        let r = find_key(rows.skip(1), id);
        if r < 0 {
            -1
        } else {
            r + 1
        }
    }
}

pub proof fn lemma_find_key<K: CacheKey, V>(rows: Seq<(K, ExpiringValue<V>)>, id: Seq<u8>)
    ensures
        -1 <= find_key(rows, id) < rows.len(),
        find_key(rows, id) >= 0 ==> rows[find_key(rows, id)].0.key_id() == id,
        forall|j: int|
            0 <= j < rows.len() && (#[trigger] rows[j]).0.key_id() == id ==> find_key(rows, id)
                >= 0,
        forall|j: int|
            0 <= j < find_key(rows, id) ==> (#[trigger] rows[j]).0.key_id() != id,
    decreases rows.len(),
{
    if rows.len() > 0 && rows[0].0.key_id() != id {
        let t = rows.skip(1);
        lemma_find_key(t, id);
        assert forall|j: int| 0 <= j < t.len() implies #[trigger] t[j] == rows[j + 1] by {
            assert(t[j] == rows.subrange(1, rows.len() as int)[j]);
        }
        assert forall|j: int|
            0 <= j < find_key(rows, id) implies (#[trigger] rows[j]).0.key_id() != id by {
            if j > 0 {
                assert(t[j - 1] == rows[j]);
            }
        }
        assert forall|j: int|
            0 <= j < rows.len() && (#[trigger] rows[j]).0.key_id() == id implies find_key(
            rows,
            id,
        ) >= 0 by {
            if j > 0 {
                assert(t[j - 1] == rows[j]);
            }
        }
    }
}

/// The entry stored under the given identity, if any.
pub open spec fn stored<K: CacheKey, V>(rows: Seq<(K, ExpiringValue<V>)>, id: Seq<u8>) -> Option<
    ExpiringValue<V>,
> {
    let i = find_key(rows, id);
    if i < 0 {
        None
    } else {
        Some(rows[i].1)
    }
}

/// The value observable under the given identity at time `now`: present and
/// not expired.
pub open spec fn live_value<K: CacheKey, V>(
    rows: Seq<(K, ExpiringValue<V>)>,
    id: Seq<u8>,
    now: u64,
) -> Option<V> {
    match stored(rows, id) {
        Some(e) => if e.expired_at(now) {
            None
        } else {
            Some(e.inner)
        },
        None => None,
    }
}

/// The rows that are not expired at `now`, in order.
pub open spec fn live_rows<K: CacheKey, V>(rows: Seq<(K, ExpiringValue<V>)>, now: u64) -> Seq<
    (K, ExpiringValue<V>),
>
    decreases rows.len(),
{
    if rows.len() == 0 {
        Seq::empty()
    } else {
        let rest = live_rows(rows.drop_last(), now);
        if rows.last().1.expired_at(now) {
            rest
        } else {
            rest.push(rows.last())
        }
    }
}

/// The live rows are never more than the rows.
pub proof fn lemma_live_rows_len<K: CacheKey, V>(rows: Seq<(K, ExpiringValue<V>)>, now: u64)
    ensures
        live_rows(rows, now).len() <= rows.len(),
    decreases rows.len(),
{
    if rows.len() > 0 {
        lemma_live_rows_len(rows.drop_last(), now);
    }
}

/// The rows after removing the entry with the given identity, if present.
pub open spec fn remove_key<K: CacheKey, V>(rows: Seq<(K, ExpiringValue<V>)>, id: Seq<u8>) -> Seq<
    (K, ExpiringValue<V>),
> {
    let i = find_key(rows, id);
    if i < 0 {
        rows
    } else {
        rows.remove(i)
    }
}

/// What a full cache does to make room: sweep its expired entries first, and
/// only when that is not enough drop the oldest insertion.
pub open spec fn bounded_rows<K: CacheKey, V>(w: Seq<(K, ExpiringValue<V>)>, now: u64) -> Seq<
    (K, ExpiringValue<V>),
> {
    if w.len() >= CACHE_CAPACITY as nat {
        let lw = live_rows(w, now);
        if lw.len() >= CACHE_CAPACITY as nat {
            lw.skip(1)
        } else {
            lw
        }
    } else {
        w
    }
}

/// What one insert does to a flushed row sequence: drop the old entry under
/// the key, make room if the cache would overflow, append fresh.
pub open spec fn set_rows<K: CacheKey, V>(
    rows: Seq<(K, ExpiringValue<V>)>,
    k: K,
    v: V,
    d: u64,
    now: u64,
) -> Seq<(K, ExpiringValue<V>)> {
    let b = bounded_rows(remove_key(rows, k.key_id()), now);
    b.push((k, (ExpiringValue { inner: v, created_at: now, duration: d })))
}

/// A bounded associative store whose entries each carry a creation time and a
/// duration; expired entries are purged by a periodic sweep and never
/// observable through `get`.
pub struct Storage<K, V> {
    entries: Vec<(K, ExpiringValue<V>)>,
    last_flush: u64,
    flush_interval: u64,
}

impl<K: CacheKey, V> Storage<K, V> {
    /// The stored rows, oldest insertion first.
    pub closed spec fn rows(&self) -> Seq<(K, ExpiringValue<V>)> {
        self.entries@
    }

    /// When the last sweep ran.
    pub closed spec fn last_flush_spec(&self) -> u64 {
        self.last_flush
    }

    /// Seconds between sweeps.
    pub closed spec fn flush_interval_spec(&self) -> u64 {
        self.flush_interval
    }

    /// At most `CACHE_CAPACITY` entries, with pairwise-distinct keys.
    pub open spec fn wf(&self) -> bool {
        self.rows().len() <= CACHE_CAPACITY as nat && unique_keys(self.rows())
    }

    /// Whether a mutating operation at `now` must sweep first.
    pub open spec fn should_flush(&self, now: u64) -> bool {
        now > self.last_flush_spec() + self.flush_interval_spec()
    }

    /// The rows after the sweep that a mutating operation at `now` performs.
    pub open spec fn flushed_rows(&self, now: u64) -> Seq<(K, ExpiringValue<V>)> {
        if self.should_flush(now) {
            live_rows(self.rows(), now)
        } else {
            self.rows()
        }
    }

    /// An empty store whose sweep clock starts at `now`.
    pub fn new(now: u64) -> (r: Self)
        ensures
            r.wf(),
            r.rows() == Seq::<(K, ExpiringValue<V>)>::empty(),
            r.last_flush_spec() == now,
            r.flush_interval_spec() == EXPIRED_FLUSH_INTERVAL,
    {
        Storage { entries: Vec::new(), last_flush: now, flush_interval: EXPIRED_FLUSH_INTERVAL }
    }

    /// How many entries the store holds, expired ones included.
    pub fn len(&self) -> (r: usize)
        ensures
            r == self.rows().len(),
    {
        self.entries.len()
    }

    /// The position of the entry under `k`, if any.
    fn position_of(&self, k: &K) -> (r: Option<usize>)
        ensures
            match r {
                Some(i) => i == find_key(self.rows(), k.key_id()) && i < self.rows().len(),
                None => find_key(self.rows(), k.key_id()) < 0,
            },
    {
        let mut i: usize = 0;
        while i < self.entries.len()
            invariant
                i <= self.rows().len(),
                forall|j: int| 0 <= j < i ==> (#[trigger] self.rows()[j]).0.key_id() != k.key_id(),
            decreases self.rows().len() - i,
        {
            let e = &self.entries[i];
            if e.0.key_eq(k) {
                proof {
                    lemma_find_key(self.rows(), k.key_id());
                }
                return Some(i);
            }
            i = i + 1;
        }
        proof {
            lemma_find_key(self.rows(), k.key_id());
        }
        None
    }

    /// The live value under `k` at `now`. A hit is returned only while the
    /// entry is unexpired, and an expired entry behaves exactly like an
    /// absent one. Reading refreshes nothing.
    pub fn get(&self, k: &K, now: u64) -> (r: Option<&V>)
        ensures
            match r {
                Some(v) => live_value(self.rows(), k.key_id(), now) == Some(*v),
                None => live_value(self.rows(), k.key_id(), now) is None,
            },
    {
        match self.position_of(k) {
            Some(i) => {
                let e = &self.entries[i];
                if e.1.is_expired(now) {
                    None
                } else {
                    Some(&e.1.inner)
                }
            },
            None => None,
        }
    }

    /// Sweeps all expired entries when more than the flush interval has
    /// passed since the last sweep, and restarts the sweep clock; otherwise
    /// changes nothing.
    pub fn flush(&mut self, now: u64)
        requires
            old(self).wf(),
        ensures
            final(self).wf(),
            final(self).rows() == old(self).flushed_rows(now),
            final(self).flush_interval_spec() == old(self).flush_interval_spec(),
            final(self).last_flush_spec() == if old(self).should_flush(now) {
                now
            } else {
                old(self).last_flush_spec()
            },
    {
        let needed = now > self.last_flush && now - self.last_flush > self.flush_interval;
        proof {
            assert(needed == self.should_flush(now));
        }
        if !needed {
            return ;
        }
        self.sweep(now);
        self.last_flush = now;
    }

    /// Drops every expired entry, keeping the order of the rest. The sweep
    /// clock is not touched: the periodic `flush` owns it.
    fn sweep(&mut self, now: u64)
        requires
            old(self).wf(),
        ensures
            final(self).wf(),
            final(self).rows() == live_rows(old(self).rows(), now),
            final(self).flush_interval_spec() == old(self).flush_interval_spec(),
            final(self).last_flush_spec() == old(self).last_flush_spec(),
    {
        let ghost orig = self.entries@;
        let mut kept: Vec<(K, ExpiringValue<V>)> = Vec::new();
        proof {
            assert(orig.take(0) =~= Seq::<(K, ExpiringValue<V>)>::empty());
        }
        let ghost mut k: int = 0;
        while self.entries.len() > 0
            invariant
                0 <= k <= orig.len(),
                self.entries@ =~= orig.skip(k),
                kept@ == live_rows(orig.take(k), now),
                self.last_flush_spec() == old(self).last_flush_spec(),
                self.flush_interval_spec() == old(self).flush_interval_spec(),
            decreases self.entries@.len(),
        {
            let e = self.entries.remove(0);
            proof {
                assert(orig.skip(k).remove(0) =~= orig.skip(k + 1));
                assert(orig.skip(k)[0] == orig[k]);
                assert(orig.take(k + 1).drop_last() =~= orig.take(k));
                assert(orig.take(k + 1).last() == orig[k]);
                k = k + 1;
            }
            if !e.1.is_expired(now) {
                kept.push(e);
            }
        }
        proof {
            assert(orig.take(orig.len() as int) =~= orig);
            lemma_live_rows_unique(orig, now);
            lemma_live_rows_len(orig, now);
        }
        self.entries = kept;
    }

    /// Inserts `v` under `k` with duration `d`, timestamped `now`, sweeping
    /// first when due. A full cache makes room by sweeping its expired
    /// entries, and only when that is not enough by evicting the oldest
    /// insertion. Returns the value the insert displaced, if one survived the
    /// periodic sweep.
    pub fn set_with_duration(&mut self, k: K, v: V, d: u64, now: u64) -> (r: Option<V>)
        requires
            old(self).wf(),
        ensures
            final(self).wf(),
            final(self).rows() == set_rows(old(self).flushed_rows(now), k, v, d, now),
            final(self).flush_interval_spec() == old(self).flush_interval_spec(),
            final(self).last_flush_spec() == if old(self).should_flush(now) {
                now
            } else {
                old(self).last_flush_spec()
            },
            r == match stored(old(self).flushed_rows(now), k.key_id()) {
                Some(e) => Some(e.inner),
                None => None::<V>,
            },
    {
        self.flush(now);
        let ghost f = self.rows();
        let prev = match self.position_of(&k) {
            Some(i) => {
                proof {
                    lemma_find_key(f, k.key_id());
                }
                let e = self.entries.remove(i);
                Some(e.1.take())
            },
            None => None,
        };
        let ghost w = remove_key(f, k.key_id());
        proof {
            assert(self.rows() == w);
            lemma_remove_key_unique(f, k.key_id());
            lemma_remove_key_absent(f, k.key_id());
        }
        if self.entries.len() >= CACHE_CAPACITY {
            self.sweep(now);
            proof {
                assert(self.rows() == live_rows(w, now));
            }
            if self.entries.len() >= CACHE_CAPACITY {
                self.entries.remove(0);
                proof {
                    assert(self.rows() =~= live_rows(w, now).skip(1));
                }
            }
        }
        let ghost b = self.rows();
        proof {
            lemma_bounded_rows_props(w, k.key_id(), now);
            assert(b == bounded_rows(w, now));
        }
        self.entries.push((k, ExpiringValue { inner: v, created_at: now, duration: d }));
        proof {
            lemma_find_key(b, k.key_id());
            assert forall|i: int, j: int|
                0 <= i < j < self.rows().len() implies (#[trigger] self.rows()[i]).0.key_id() != (
            #[trigger] self.rows()[j]).0.key_id() by {
                if j < self.rows().len() - 1 {
                    assert(self.rows()[i] == b[i] && self.rows()[j] == b[j]);
                } else {
                    assert(self.rows()[i] == b[i]);
                }
            }
        }
        prev
    }

    /// Finds the live entry under `k` at `now` after the due sweep; when its
    /// duration differs from `d`, restarts its life at `now` with duration
    /// `d`; returns the entry's value. A miss (or an expired entry) changes
    /// no row and returns nothing.
    pub fn acquire(&mut self, k: &K, d: u64, now: u64) -> (r: Option<&V>)
        requires
            old(self).wf(),
        ensures
            final(self).wf(),
            final(self).flush_interval_spec() == old(self).flush_interval_spec(),
            final(self).last_flush_spec() == if old(self).should_flush(now) {
                now
            } else {
                old(self).last_flush_spec()
            },
            ({
                let f = old(self).flushed_rows(now);
                let i = find_key(f, k.key_id());
                if i >= 0 && !f[i].1.expired_at(now) {
                    r == Some(&f[i].1.inner) && final(self).rows() == (if f[i].1.duration == d {
                        f
                    } else {
                        f.update(
                            i,
                            (
                                f[i].0,
                                (ExpiringValue {
                                    inner: f[i].1.inner,
                                    created_at: now,
                                    duration: d,
                                }),
                            ),
                        )
                    })
                } else {
                    r is None && final(self).rows() == f
                }
            }),
    {
        self.flush(now);
        let ghost f = self.rows();
        let i = match self.position_of(k) {
            Some(i) => i,
            None => {
                return None;
            },
        };
        proof {
            lemma_find_key(f, k.key_id());
        }
        let expired = self.entries[i].1.is_expired(now);
        if expired {
            return None;
        }
        let differs = self.entries[i].1.duration != d;
        if differs {
            let e = self.entries.remove(i);
            let key = e.0;
            let mut ev = e.1;
            ev.set_duration(d, now);
            self.entries.insert(i, (key, ev));
            proof {
                assert(self.rows() =~= f.update(
                    i as int,
                    (
                        f[i as int].0,
                        (ExpiringValue {
                            inner: f[i as int].1.inner,
                            created_at: now,
                            duration: d,
                        }),
                    ),
                ));
                assert(unique_keys(self.rows())) by {
                    assert forall|a: int, b2: int|
                        0 <= a < b2 < self.rows().len() implies (
                    #[trigger] self.rows()[a]).0.key_id() != (
                    #[trigger] self.rows()[b2]).0.key_id() by {
                        assert(self.rows()[a].0.key_id() == f[a].0.key_id());
                        assert(self.rows()[b2].0.key_id() == f[b2].0.key_id());
                    }
                }
            }
        }
        let e = &self.entries[i];
        Some(&e.1.inner)
    }
}

/// Sweeping keeps keys pairwise distinct, and keeps only stored rows.
proof fn lemma_live_rows_unique<K: CacheKey, V>(rows: Seq<(K, ExpiringValue<V>)>, now: u64)
    requires
        unique_keys(rows),
    ensures
        unique_keys(live_rows(rows, now)),
        forall|i: int|
            0 <= i < live_rows(rows, now).len() ==> rows.contains(
                #[trigger] live_rows(rows, now)[i],
            ),
    decreases rows.len(),
{
    if rows.len() > 0 {
        let d = rows.drop_last();
        assert(unique_keys(d)) by {
            assert(forall|j: int| 0 <= j < d.len() ==> d[j] == rows[j]);
        }
        lemma_live_rows_unique(d, now);
        let fd = live_rows(d, now);
        assert(forall|i: int| 0 <= i < fd.len() ==> rows.contains(#[trigger] fd[i])) by {
            assert(forall|i: int|
                0 <= i < d.len() ==> #[trigger] d[i] == rows[i] && rows.contains(rows[i]));
            assert forall|i: int| 0 <= i < fd.len() implies rows.contains(#[trigger] fd[i]) by {
                assert(d.contains(fd[i]));
                let j = choose|j: int| 0 <= j < d.len() && d[j] == fd[i];
                assert(rows[j] == fd[i]);
            }
        }
        if !rows.last().1.expired_at(now) {
            let out = fd.push(rows.last());
            assert(live_rows(rows, now) == out);
            assert forall|a: int, b: int|
                0 <= a < b < out.len() implies (#[trigger] out[a]).0.key_id() != (
            #[trigger] out[b]).0.key_id() by {
                if b < out.len() - 1 {
                    assert(out[a] == fd[a] && out[b] == fd[b]);
                } else {
                    assert(out[b] == rows.last());
                    assert(out[a] == fd[a]);
                    assert(d.contains(fd[a]));
                    let j = choose|j: int| 0 <= j < d.len() && d[j] == fd[a];
                    assert(rows[j] == fd[a]);
                    assert(rows[j].0.key_id() != rows[rows.len() - 1].0.key_id());
                }
            }
        }
    }
}

/// Removing an entry keeps keys pairwise distinct.
proof fn lemma_remove_key_unique<K: CacheKey, V>(rows: Seq<(K, ExpiringValue<V>)>, id: Seq<u8>)
    requires
        unique_keys(rows),
    ensures
        unique_keys(remove_key(rows, id)),
        remove_key(rows, id).len() <= rows.len(),
{
    lemma_find_key(rows, id);
    let i = find_key(rows, id);
    if i >= 0 {
        let out = rows.remove(i);
        assert forall|a: int, b: int|
            0 <= a < b < out.len() implies (#[trigger] out[a]).0.key_id() != (
        #[trigger] out[b]).0.key_id() by {
            assert(out[a] == if a < i {
                rows[a]
            } else {
                rows[a + 1]
            });
            assert(out[b] == if b < i {
                rows[b]
            } else {
                rows[b + 1]
            });
        }
    }
}

/// After removal, the identity no longer occurs.
proof fn lemma_remove_key_absent<K: CacheKey, V>(rows: Seq<(K, ExpiringValue<V>)>, id: Seq<u8>)
    requires
        unique_keys(rows),
    ensures
        forall|j: int|
            0 <= j < remove_key(rows, id).len() ==> (#[trigger] remove_key(rows, id)[j]).0.key_id()
                != id,
{
    lemma_find_key(rows, id);
    let i = find_key(rows, id);
    if i < 0 {
        assert forall|j: int|
            0 <= j < remove_key(rows, id).len() implies (
        #[trigger] remove_key(rows, id)[j]).0.key_id() != id by {
            assert(remove_key(rows, id)[j] == rows[j]);
            if rows[j].0.key_id() == id {
                assert(find_key(rows, id) >= 0);
            }
        }
    } else {
        let out = rows.remove(i);
        assert forall|j: int| 0 <= j < out.len() implies (#[trigger] out[j]).0.key_id() != id by {
            assert(out[j] == if j < i {
                rows[j]
            } else {
                rows[j + 1]
            });
            assert(rows[i].0.key_id() == id);
        }
    }
}

/// What SHA-1 returns for the given input: a pure function of the bytes.
pub uninterp spec fn sha1_of(data: Seq<u8>) -> Seq<u8>;

/// Relies on sha1's one-shot `Digest::digest`: the 20-byte SHA-1 digest of
/// the input, a function of the input bytes alone.
#[verifier::external_body]
pub(crate) fn sha1_digest(data: &Vec<u8>) -> (r: Vec<u8>)
    ensures
        r@ == sha1_of(data@),
        r@.len() == 20,
{
    sha1::Sha1::digest(data.as_slice()).to_vec()
}

/// The identity that a client IP and a target host hash to: the lowercase hex
/// form of the SHA-1 digest of their concatenation.
pub open spec fn connection_hash_id(client_ip: Seq<u8>, host: Seq<u8>) -> Seq<u8> {
    hex_of(sha1_of(client_ip + host))
}

/// The stable identifier of a connection: two connections from the same IP to
/// the same host share one.
#[derive(Debug)]
pub struct ConnectionHash {
    hex: Vec<u8>,
}

impl ConnectionHash {
    /// The identifying bytes.
    pub closed spec fn id(&self) -> Seq<u8> {
        self.hex@
    }

    /// Derives the identifier. A pure function of `(client_ip, host)`: equal
    /// inputs always yield equal identifiers.
    pub fn new(client_ip: &Vec<u8>, host: &Vec<u8>) -> (r: Self)
        ensures
            r.id() == connection_hash_id(client_ip@, host@),
    {
        let mut data = copy_bytes(client_ip);
        append_bytes(&mut data, host);
        let digest = sha1_digest(&data);
        ConnectionHash { hex: hex_encode(&digest) }
    }

    /// The identifying bytes, for hashing into derived identifiers.
    pub fn as_hex(&self) -> (r: &Vec<u8>)
        ensures
            r@ == self.id(),
    {
        &self.hex
    }
}

impl CacheKey for ConnectionHash {
    open spec fn key_id(&self) -> Seq<u8> {
        self.id()
    }

    fn key_eq(&self, other: &Self) -> (r: bool)
        ensures
            r == (self.key_id() == other.key_id()),
    {
        bytes_eq(&self.hex, &other.hex)
    }
}

impl Clone for ConnectionHash {
    fn clone(&self) -> (r: Self)
        ensures
            r.id() == self.id(),
    {
        ConnectionHash { hex: copy_bytes(&self.hex) }
    }
}

/// The number of live entries never exceeds the capacity.
pub proof fn lemma_live_bounded<K: CacheKey, V>(s: &Storage<K, V>, now: u64)
    requires
        s.wf(),
    ensures
        live_rows(s.rows(), now).len() <= CACHE_CAPACITY as nat,
{
    lemma_live_rows_len(s.rows(), now);
}

/// Making room keeps keys pairwise distinct, keeps an absent identity
/// absent, and leaves the cache strictly under its capacity.
pub proof fn lemma_bounded_rows_props<K: CacheKey, V>(
    w: Seq<(K, ExpiringValue<V>)>,
    id: Seq<u8>,
    now: u64,
)
    requires
        unique_keys(w),
        forall|j: int| 0 <= j < w.len() ==> (#[trigger] w[j]).0.key_id() != id,
    ensures
        unique_keys(bounded_rows(w, now)),
        forall|j: int|
            0 <= j < bounded_rows(w, now).len() ==> (#[trigger] bounded_rows(w, now)[j]).0.key_id()
                != id,
        w.len() <= CACHE_CAPACITY as nat ==> bounded_rows(w, now).len() < CACHE_CAPACITY as nat,
{
    let b = bounded_rows(w, now);
    if w.len() >= CACHE_CAPACITY as nat {
        let lw = live_rows(w, now);
        lemma_live_rows_unique(w, now);
        lemma_live_rows_len(w, now);
        assert forall|j: int| 0 <= j < lw.len() implies (#[trigger] lw[j]).0.key_id() != id by {
            assert(w.contains(lw[j]));
            let m = choose|m: int| 0 <= m < w.len() && w[m] == lw[j];
            assert(w[m].0.key_id() != id);
        }
        if lw.len() >= CACHE_CAPACITY as nat {
            assert forall|a: int, c: int|
                0 <= a < c < b.len() implies (#[trigger] b[a]).0.key_id() != (
            #[trigger] b[c]).0.key_id() by {
                assert(b[a] == lw[a + 1] && b[c] == lw[c + 1]);
            }
            assert forall|j: int| 0 <= j < b.len() implies (#[trigger] b[j]).0.key_id() != id by {
                assert(b[j] == lw[j + 1]);
            }
        }
    }
}

/// The cache TTL law: after an insert of `(k, v)` with duration `d` at time
/// `t`, a lookup of `k` at `t2` sees `v` while `t2 <= t + d`, and nothing
/// once `t2 > t + d`.
pub proof fn lemma_set_then_get<K: CacheKey, V>(
    rows: Seq<(K, ExpiringValue<V>)>,
    k: K,
    v: V,
    d: u64,
    t: u64,
    t2: u64,
)
    requires
        unique_keys(rows),
    ensures
        t2 <= t + d ==> live_value(set_rows(rows, k, v, d, t), k.key_id(), t2) == Some(v),
        t2 > t + d ==> live_value(set_rows(rows, k, v, d, t), k.key_id(), t2) is None,
{
    let id = k.key_id();
    lemma_remove_key_unique(rows, id);
    lemma_remove_key_absent(rows, id);
    let w = remove_key(rows, id);
    lemma_bounded_rows_props(w, id, t);
    let b = bounded_rows(w, t);
    let out = set_rows(rows, k, v, d, t);
    assert(out == b.push((k, (ExpiringValue { inner: v, created_at: t, duration: d }))));
    lemma_find_key_pushed(b, k, (ExpiringValue { inner: v, created_at: t, duration: d }));
    assert(stored(out, id) == Some((ExpiringValue { inner: v, created_at: t, duration: d })));
}

/// An entry inserted with duration zero is expired the moment any time has
/// passed: it is never observable by a later lookup.
pub proof fn lemma_zero_duration_never_live<K: CacheKey, V>(
    rows: Seq<(K, ExpiringValue<V>)>,
    k: K,
    v: V,
    t: u64,
    t2: u64,
)
    requires
        unique_keys(rows),
        t2 > t,
    ensures
        live_value(set_rows(rows, k, v, 0u64, t), k.key_id(), t2) is None,
{
    lemma_set_then_get(rows, k, v, 0u64, t, t2);
}

/// An entry inserted with duration one is observable through the first
/// second after its insertion and never after it.
pub proof fn lemma_one_second_boundary<K: CacheKey, V>(
    rows: Seq<(K, ExpiringValue<V>)>,
    k: K,
    v: V,
    t: u64,
    t2: u64,
)
    requires
        unique_keys(rows),
        t < u64::MAX,
    ensures
        t2 <= t + 1 ==> live_value(set_rows(rows, k, v, 1u64, t), k.key_id(), t2) == Some(v),
        t2 > t + 1 ==> live_value(set_rows(rows, k, v, 1u64, t), k.key_id(), t2) is None,
{
    lemma_set_then_get(rows, k, v, 1u64, t, t2);
}

/// After an insert, the entry stored under the key is exactly the fresh one.
pub proof fn lemma_set_rows_stored<K: CacheKey, V>(
    rows: Seq<(K, ExpiringValue<V>)>,
    k: K,
    v: V,
    d: u64,
    now: u64,
)
    requires
        unique_keys(rows),
    ensures
        stored(set_rows(rows, k, v, d, now), k.key_id()) == Some(
            (ExpiringValue { inner: v, created_at: now, duration: d }),
        ),
{
    let id = k.key_id();
    lemma_remove_key_unique(rows, id);
    lemma_remove_key_absent(rows, id);
    let w = remove_key(rows, id);
    lemma_bounded_rows_props(w, id, now);
    lemma_find_key_pushed(
        bounded_rows(w, now),
        k,
        (ExpiringValue { inner: v, created_at: now, duration: d }),
    );
}

/// An insert keeps keys pairwise distinct and stays within the capacity.
pub proof fn lemma_set_rows_unique<K: CacheKey, V>(
    rows: Seq<(K, ExpiringValue<V>)>,
    k: K,
    v: V,
    d: u64,
    now: u64,
)
    requires
        unique_keys(rows),
    ensures
        unique_keys(set_rows(rows, k, v, d, now)),
        rows.len() <= CACHE_CAPACITY as nat ==> set_rows(rows, k, v, d, now).len()
            <= CACHE_CAPACITY as nat,
{
    let id = k.key_id();
    lemma_remove_key_unique(rows, id);
    lemma_remove_key_absent(rows, id);
    let w = remove_key(rows, id);
    lemma_bounded_rows_props(w, id, now);
    let b = bounded_rows(w, now);
    let out = set_rows(rows, k, v, d, now);
    assert forall|a: int, c: int|
        0 <= a < c < out.len() implies (#[trigger] out[a]).0.key_id() != (
    #[trigger] out[c]).0.key_id() by {
        if c < out.len() - 1 {
            assert(out[a] == b[a] && out[c] == b[c]);
        } else {
            assert(out[a] == b[a]);
        }
    }
}

/// Pushing an entry whose identity is absent makes it the found one.
proof fn lemma_find_key_pushed<K: CacheKey, V>(
    b: Seq<(K, ExpiringValue<V>)>,
    k: K,
    e: ExpiringValue<V>,
)
    requires
        forall|j: int| 0 <= j < b.len() ==> (#[trigger] b[j]).0.key_id() != k.key_id(),
    ensures
        find_key(b.push((k, e)), k.key_id()) == b.len(),
    decreases b.len(),
{
    let out = b.push((k, e));
    if b.len() == 0 {
        assert(out[0].0.key_id() == k.key_id());
    } else {
        assert(out[0] == b[0]);
        assert(out.skip(1) =~= b.skip(1).push((k, e)));
        assert(forall|j: int|
            0 <= j < b.skip(1).len() ==> #[trigger] b.skip(1)[j] == b[j + 1]);
        lemma_find_key_pushed(b.skip(1), k, e);
    }
}

} // verus!
