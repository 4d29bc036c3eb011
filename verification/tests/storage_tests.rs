//! The expiring cache: TTL visibility, sweeping, capacity, and the two
//! stores built on it.
use hud_proxy::auth::parse_credentials;
use hud_proxy::storage::{
    CacheKey, ClientHash, ClientStorage, ConnectionHash, ExpiringValue, SessionStorage, Storage,
};

fn conn_key(ip: &[u8], host: &[u8]) -> ConnectionHash {
    ConnectionHash::new(&ip.to_vec(), &host.to_vec())
}

fn session(credential: &[u8]) -> hud_proxy::auth::Session {
    parse_credentials(&credential.to_vec(), &b"10.0.0.1:5000".to_vec()).unwrap()
}

#[test]
fn connection_hash_is_a_pure_function() {
    let a = conn_key(b"10.0.0.1", b"example.com");
    let b = conn_key(b"10.0.0.1", b"example.com");
    let c = conn_key(b"10.0.0.2", b"example.com");
    let d = conn_key(b"10.0.0.1", b"example.org");
    assert_eq!(a.as_hex(), b.as_hex());
    assert_ne!(a.as_hex(), c.as_hex());
    assert_ne!(a.as_hex(), d.as_hex());
}

#[test]
fn connection_hash_matches_sha1() {
    // SHA-1 of "abc" is a9993e364706816aba3e25717850c26c9cd0d89d; the key
    // hashes the concatenation of IP and host.
    let k = conn_key(b"ab", b"c");
    assert_eq!(
        k.as_hex(),
        &b"a9993e364706816aba3e25717850c26c9cd0d89d".to_vec()
    );
    let same = conn_key(b"a", b"bc");
    assert_eq!(same.as_hex(), k.as_hex());
}

#[test]
fn client_hash_depends_on_route_tag() {
    let conn = conn_key(b"10.0.0.1", b"example.com");
    let s = session(b"customer-a-session_id-s-country-US-session_time-300:pw");
    let k1 = ClientHash::new(&conn, &s, &b"US".to_vec());
    let k2 = ClientHash::new(&conn, &s, &b"US".to_vec());
    let k3 = ClientHash::new(&conn, &s, &b"DE".to_vec());
    assert!(k1.key_eq(&k2));
    assert!(!k1.key_eq(&k3));
}

#[test]
fn get_sees_an_entry_until_its_ttl_passes() {
    let mut store: Storage<ConnectionHash, u32> = Storage::new(1000);
    let k = conn_key(b"10.0.0.1", b"example.com");
    store.set_with_duration(conn_key(b"10.0.0.1", b"example.com"), 7, 300, 1000);
    assert_eq!(store.get(&k, 1000), Some(&7));
    assert_eq!(store.get(&k, 1100), Some(&7));
    assert_eq!(store.get(&k, 1300), Some(&7));
    assert_eq!(store.get(&k, 1301), None);
    assert_eq!(store.get(&conn_key(b"10.0.0.1", b"other.com"), 1100), None);
}

#[test]
fn zero_duration_entry_is_never_seen_later() {
    let mut store: Storage<ConnectionHash, u32> = Storage::new(1000);
    let k = conn_key(b"10.0.0.1", b"example.com");
    store.set_with_duration(conn_key(b"10.0.0.1", b"example.com"), 7, 0, 1000);
    assert_eq!(store.get(&k, 1001), None);
    assert_eq!(store.get(&k, 5000), None);
}

#[test]
fn one_second_entry_is_seen_within_the_first_second_only() {
    let mut store: Storage<ConnectionHash, u32> = Storage::new(1000);
    let k = conn_key(b"10.0.0.1", b"example.com");
    store.set_with_duration(conn_key(b"10.0.0.1", b"example.com"), 7, 1, 1000);
    assert_eq!(store.get(&k, 1001), Some(&7));
    assert_eq!(store.get(&k, 1002), None);
}

#[test]
fn set_returns_the_displaced_value_and_sweeps_when_due() {
    let mut store: Storage<ConnectionHash, u32> = Storage::new(0);
    let k = conn_key(b"10.0.0.1", b"example.com");
    store.set_with_duration(conn_key(b"10.0.0.1", b"example.com"), 1, 1, 0);
    // Expired but not yet swept: the insert still displaces it.
    let prev = store.set_with_duration(conn_key(b"10.0.0.1", b"example.com"), 2, 1, 500);
    assert_eq!(prev, Some(1));
    // More than the flush interval later, the expired entry is swept first.
    let prev = store.set_with_duration(conn_key(b"10.0.0.1", b"example.com"), 3, 1, 1200);
    assert_eq!(prev, None);
    assert_eq!(store.get(&k, 1200), Some(&3));
}

#[test]
fn a_long_lived_entry_survives_the_sweep() {
    let mut store: Storage<ConnectionHash, u32> = Storage::new(0);
    let k = conn_key(b"10.0.0.1", b"example.com");
    store.set_with_duration(conn_key(b"10.0.0.1", b"example.com"), 1, 100000, 0);
    let prev = store.set_with_duration(conn_key(b"10.0.0.1", b"example.com"), 2, 100000, 1200);
    assert_eq!(prev, Some(1));
    assert_eq!(store.get(&k, 1200), Some(&2));
}

#[test]
fn capacity_is_bounded_and_the_oldest_entry_leaves() {
    let mut store: Storage<ConnectionHash, u32> = Storage::new(1000);
    for i in 0..10001u32 {
        let host = format!("host-{i}.example.com");
        store.set_with_duration(
            conn_key(b"10.0.0.1", host.as_bytes()),
            i,
            100000,
            1000,
        );
    }
    assert_eq!(store.len(), 10000);
    // The oldest insertion was evicted; the next one survives.
    assert_eq!(store.get(&conn_key(b"10.0.0.1", b"host-0.example.com"), 1000), None);
    assert_eq!(
        store.get(&conn_key(b"10.0.0.1", b"host-1.example.com"), 1000),
        Some(&1)
    );
    assert_eq!(
        store.get(&conn_key(b"10.0.0.1", b"host-10000.example.com"), 1000),
        Some(&10000)
    );
}

#[test]
fn expiring_value_accessors() {
    let mut e = ExpiringValue { inner: 41u32, created_at: 100, duration: 50 };
    assert!(!e.is_expired(150));
    assert!(e.is_expired(151));
    assert_eq!(e.get(), &41);
    *e.get_mut() = 42;
    assert_eq!(e.get(), &42);
    e.set_duration(10, 200);
    assert!(!e.is_expired(210));
    assert!(e.is_expired(211));
    assert_eq!(e.take(), 42);
}

#[test]
fn second_connect_overwrites_the_session_and_its_ttl() {
    let mut sessions = SessionStorage::new(1000);
    let k = conn_key(b"10.0.0.1", b"example.com");
    let s1 = session(b"customer-a-session_id-s1-country-US-session_time-100:pw");
    let s2 = session(b"customer-a-session_id-s2-country-US-session_time-300:pw");
    let prev = sessions.insert_session(conn_key(b"10.0.0.1", b"example.com"), s1, 1000);
    assert!(prev.is_none());
    let prev = sessions.insert_session(conn_key(b"10.0.0.1", b"example.com"), s2, 1010);
    assert_eq!(prev.unwrap().session_id(), &b"s1".to_vec());
    // One live session: the second, under the second's TTL.
    let got = sessions.get_session(&k, 1200).unwrap();
    assert_eq!(got.session_id(), &b"s2".to_vec());
    assert!(sessions.get_session(&k, 1310).is_some());
    assert!(sessions.get_session(&k, 1311).is_none());
}

#[test]
fn acquired_client_is_the_installed_one() {
    let conn = conn_key(b"10.0.0.1", b"example.com");
    let s = session(b"customer-a-session_id-s-country-US-session_time-300:pw");
    let key = ClientHash::new(&conn, &s, &b"US".to_vec());
    let mut clients: ClientStorage<u32> = ClientStorage::new(1000);
    assert!(clients.acquire_client(&key, 300, 1000).is_none());
    clients.install_client(ClientHash::new(&conn, &s, &b"US".to_vec()), 7, 300, 1000);
    for i in 0..50u64 {
        let got = clients.acquire_client(&key, 300, 1000 + i);
        assert_eq!(got, Some(&7));
    }
}

#[test]
fn acquire_refreshes_a_differing_duration() {
    let conn = conn_key(b"10.0.0.1", b"example.com");
    let s = session(b"customer-a-session_id-s-country-US-session_time-300:pw");
    let key = ClientHash::new(&conn, &s, &b"US".to_vec());
    let mut clients: ClientStorage<u32> = ClientStorage::new(1000);
    clients.install_client(ClientHash::new(&conn, &s, &b"US".to_vec()), 7, 10, 1000);
    // A later session carries a longer time: the entry's life restarts.
    assert_eq!(clients.acquire_client(&key, 500, 1005), Some(&7));
    assert_eq!(clients.get_client(&key, 1400), Some(&7));
    assert_eq!(clients.get_client(&key, 1506), None);
}

#[test]
fn a_full_cache_sweeps_expired_entries_before_evicting() {
    let mut store: Storage<ConnectionHash, u32> = Storage::new(1000);
    for i in 0..10000u32 {
        let host = format!("host-{i}.example.com");
        store.set_with_duration(conn_key(b"10.0.0.1", host.as_bytes()), i, 50, 1000);
    }
    assert_eq!(store.len(), 10000);
    // All entries have expired; the full cache makes room by sweeping them,
    // well before the periodic flush interval has passed.
    store.set_with_duration(conn_key(b"10.0.0.1", b"fresh.example.com"), 1, 300, 1100);
    assert_eq!(store.len(), 1);
    assert_eq!(store.get(&conn_key(b"10.0.0.1", b"fresh.example.com"), 1100), Some(&1));
}
