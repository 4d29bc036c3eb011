//! Credential parsing and header authentication.
use base64::Engine;

use hud_proxy::auth::{handle_auth, parse_credentials, CreateSessionError, Session};

fn addr() -> Vec<u8> {
    b"10.0.0.1:5000".to_vec()
}

fn basic_header(credential: &[u8]) -> Vec<u8> {
    let mut h = b"Basic ".to_vec();
    h.extend_from_slice(
        base64::engine::general_purpose::STANDARD.encode(credential).as_bytes(),
    );
    h
}

fn parse(credential: &[u8]) -> Option<Session> {
    parse_credentials(&credential.to_vec(), &addr())
}

#[test]
fn well_formed_credential_parses() {
    let s = parse(b"customer-user123-session_id-abc-country-US-session_time-300:foo").unwrap();
    assert_eq!(s.customer(), &b"user123".to_vec());
    assert_eq!(s.session_id(), &b"abc".to_vec());
    assert_eq!(s.country(), &b"US".to_vec());
    assert_eq!(s.session_time(), 300);
    assert_eq!(s.password(), &b"foo".to_vec());
    assert_eq!(s.client_addr(), &addr());
}

#[test]
fn key_order_is_irrelevant_and_unknown_keys_are_ignored() {
    let s = parse(
        b"country-DE-session_time-60-extra-zzz-customer-c1-session_id-s1:pw",
    )
    .unwrap();
    assert_eq!(s.customer(), &b"c1".to_vec());
    assert_eq!(s.session_id(), &b"s1".to_vec());
    assert_eq!(s.country(), &b"DE".to_vec());
    assert_eq!(s.session_time(), 60);
}

#[test]
fn later_duplicate_keys_overwrite_earlier() {
    let s = parse(
        b"customer-a-customer-b-session_id-s-country-US-session_time-1:pw",
    )
    .unwrap();
    assert_eq!(s.customer(), &b"b".to_vec());
}

#[test]
fn missing_key_is_rejected() {
    assert!(parse(b"customer-a-session_id-s-country-US:pw").is_none());
}

#[test]
fn missing_colon_is_rejected() {
    assert!(parse(b"customer-a-session_id-s-country-US-session_time-1").is_none());
}

#[test]
fn bad_session_time_is_rejected() {
    assert!(parse(b"customer-a-session_id-s-country-US-session_time-3x0:pw").is_none());
    assert!(
        parse(b"customer-a-session_id-s-country-US-session_time-18446744073709551616:pw")
            .is_none()
    );
    let s =
        parse(b"customer-a-session_id-s-country-US-session_time-18446744073709551615:pw").unwrap();
    assert_eq!(s.session_time(), u64::MAX);
}

#[test]
fn password_of_length_64_accepted_65_rejected() {
    let mut ok = b"customer-a-session_id-s-country-US-session_time-1:".to_vec();
    ok.extend_from_slice(&[b'p'; 64]);
    let s = parse(&ok).unwrap();
    assert_eq!(s.password().len(), 64);

    let mut bad = b"customer-a-session_id-s-country-US-session_time-1:".to_vec();
    bad.extend_from_slice(&[b'p'; 65]);
    assert!(parse(&bad).is_none());
}

#[test]
fn field_of_length_32_accepted_33_rejected() {
    let long32 = [b'c'; 32];
    let mut ok = b"customer-".to_vec();
    ok.extend_from_slice(&long32);
    ok.extend_from_slice(b"-session_id-s-country-US-session_time-1:pw");
    assert!(parse(&ok).is_some());

    let long33 = [b'c'; 33];
    let mut bad = b"customer-".to_vec();
    bad.extend_from_slice(&long33);
    bad.extend_from_slice(b"-session_id-s-country-US-session_time-1:pw");
    assert!(parse(&bad).is_none());
}

#[test]
fn token_counts_only_eight_accepted() {
    // 0 named tokens: an empty username blob.
    assert!(parse(b":pw").is_none());
    // 2 tokens.
    assert!(parse(b"customer-u:pw").is_none());
    // 7 tokens (odd).
    assert!(parse(b"customer-u-session_id-s-country-US-session_time:pw").is_none());
    // 8 tokens (4 pairs).
    assert!(parse(b"customer-u-session_id-s-country-US-session_time-1:pw").is_some());
}

#[test]
fn empty_token_values_are_rejected() {
    assert!(parse(b"customer--session_id-s-country-US-session_time-1:pw").is_none());
    assert!(parse(b"customer-a-session_id-s-country-US-session_time-1:").is_none());
}

#[test]
fn serialization_round_trips() {
    // The password is whatever follows the last colon, so a colon inside the
    // username blob stays part of its field's value.
    let s = parse(b"session_time-300-country-US-customer-user:123-session_id-abc:foo").unwrap();
    assert_eq!(s.customer(), &b"user:123".to_vec());
    assert_eq!(s.password(), &b"foo".to_vec());
    let serialized = s.serialize_credentials();
    assert_eq!(
        serialized,
        b"customer-user:123-session_id-abc-country-US-session_time-300:foo".to_vec()
    );
    let again = parse(&serialized).unwrap();
    assert_eq!(again.customer(), s.customer());
    assert_eq!(again.session_id(), s.session_id());
    assert_eq!(again.country(), s.country());
    assert_eq!(again.session_time(), s.session_time());
    assert_eq!(again.password(), s.password());
}

#[test]
fn username_is_the_canonical_blob() {
    let s = parse(b"customer-user123-session_id-abc-country-US-session_time-300:foo").unwrap();
    assert_eq!(
        s.username(),
        b"customer-user123-session_id-abc-country-US-session_time-300".to_vec()
    );
}

#[test]
fn missing_header_is_told_apart() {
    match handle_auth(&addr(), None) {
        Err(CreateSessionError::NoAuthHeader) => {}
        _ => panic!("a missing header must raise NoAuthHeader"),
    }
}

#[test]
fn wrong_scheme_is_malformed() {
    let h = b"Bearer abcdef".to_vec();
    match handle_auth(&addr(), Some(&h)) {
        Err(CreateSessionError::MalformedHeader) => {}
        _ => panic!("a non-Basic header must be malformed"),
    }
}

#[test]
fn bad_base64_is_malformed() {
    let h = b"Basic !!!notbase64!!!".to_vec();
    match handle_auth(&addr(), Some(&h)) {
        Err(CreateSessionError::MalformedHeader) => {}
        _ => panic!("undecodable base64 must be malformed"),
    }
}

#[test]
fn non_utf8_credential_is_malformed() {
    let h = basic_header(&[0xff, 0xfe, b':', b'p']);
    match handle_auth(&addr(), Some(&h)) {
        Err(CreateSessionError::MalformedHeader) => {}
        _ => panic!("a non-UTF-8 credential must be malformed"),
    }
}

#[test]
fn encoded_well_formed_credential_authenticates() {
    let h = basic_header(b"customer-user123-session_id-abc-country-US-session_time-300:foo");
    let s = handle_auth(&addr(), Some(&h)).unwrap();
    assert_eq!(s.customer(), &b"user123".to_vec());
    assert_eq!(s.session_time(), 300);
}

#[test]
fn plain_user_password_credential_is_malformed() {
    // `Basic dXNlcjEyMzpmb28=` decodes to `user123:foo`: no required keys.
    let h = b"Basic dXNlcjEyMzpmb28=".to_vec();
    match handle_auth(&addr(), Some(&h)) {
        Err(CreateSessionError::MalformedHeader) => {}
        _ => panic!("a credential without the four keys must be malformed"),
    }
}
