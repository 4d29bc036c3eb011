//! The dispatcher state machine, canned responses, conversion, and header
//! rewriting.
use base64::Engine;

use hud_proxy::convert::{response_upstream_to_proxy, HttpVersion, ResponseParts};
use hud_proxy::proxy::{
    finish_forward, https_equivalent, Decision, ProxyHandler, ProxyReply, RequestInfo,
    UpstreamError,
};
use hud_proxy::response::{auth_needed, internal_server_error, permanent_redirect};
use hud_proxy::route::get_route_type;
use hud_proxy::storage::{ClientStorage, SessionStorage};
use hud_proxy::util::replace_headers;

fn basic_header(credential: &[u8]) -> Vec<u8> {
    let mut h = b"Basic ".to_vec();
    h.extend_from_slice(
        base64::engine::general_purpose::STANDARD.encode(credential).as_bytes(),
    );
    h
}

fn handler() -> ProxyHandler<u32> {
    ProxyHandler::new(ClientStorage::new(1000), SessionStorage::new(1000))
}

fn connect_request(credential: Option<&[u8]>) -> RequestInfo {
    RequestInfo {
        connect: true,
        uri: b"example.com:443".to_vec(),
        host: b"example.com".to_vec(),
        client_addr: b"10.0.0.1:5000".to_vec(),
        client_ip: b"10.0.0.1".to_vec(),
        proxy_auth: credential.map(basic_header),
    }
}

fn get_request(uri: &[u8]) -> RequestInfo {
    RequestInfo {
        connect: false,
        uri: uri.to_vec(),
        host: b"example.com".to_vec(),
        client_addr: b"10.0.0.1:5000".to_vec(),
        client_ip: b"10.0.0.1".to_vec(),
        proxy_auth: None,
    }
}

fn response_200() -> ResponseParts {
    ResponseParts {
        status: 200,
        version: HttpVersion::Http11,
        headers: vec![(b"content-type".to_vec(), b"text/html".to_vec())],
        body: b"ok".to_vec(),
    }
}

#[test]
fn successful_tunnel_then_forward() {
    let mut h = handler();
    let d = h.handle_request(
        &connect_request(Some(b"customer-user123-session_id-abc-country-US-session_time-300:foo")),
        1000,
    );
    assert!(matches!(d, Decision::PassThrough));

    let d = h.handle_request(&get_request(b"https://example.com/"), 1001);
    match d {
        Decision::Forward { client_key, session_time, needs_client } => {
            assert!(needs_client);
            assert_eq!(session_time, 300);
            h.install_client(client_key.clone(), 7, session_time, 1001);
            assert_eq!(h.client_for(&client_key, 1001), Some(&7));
            // The next request through the same session reuses the client.
            let d2 = h.handle_request(&get_request(b"https://example.com/two"), 1002);
            match d2 {
                Decision::Forward { client_key: k2, needs_client: n2, .. } => {
                    assert!(!n2);
                    assert_eq!(h.client_for(&k2, 1002), Some(&7));
                }
                _ => panic!("the second request must forward"),
            }
        }
        _ => panic!("a request inside a live session must forward"),
    }

    let reply = finish_forward(Ok(response_200()));
    match reply {
        ProxyReply::Upstream(p) => {
            assert_eq!(p.status, 200);
            assert_eq!(p.version, HttpVersion::Http11);
            assert_eq!(p.body, b"ok".to_vec());
        }
        _ => panic!("a drained upstream response must convert"),
    }
}

#[test]
fn missing_header_gets_407() {
    let mut h = handler();
    let d = h.handle_request(&connect_request(None), 1000);
    match d {
        Decision::Respond(c) => {
            assert_eq!(c.status, 407);
            assert!(c.proxy_authenticate_basic);
            assert!(c.location.is_none());
        }
        _ => panic!("a CONNECT without authorization must get 407"),
    }
}

#[test]
fn odd_token_username_gets_407() {
    let mut h = handler();
    let d = h.handle_request(&connect_request(Some(b"customer-u-session_id:pw")), 1000);
    match d {
        Decision::Respond(c) => assert_eq!(c.status, 407),
        _ => panic!("an odd token count must get 407"),
    }
}

#[test]
fn http_without_session_redirects_to_https() {
    let mut h = handler();
    let d = h.handle_request(&get_request(b"http://example.com/x"), 1000);
    match d {
        Decision::Respond(c) => {
            assert_eq!(c.status, 308);
            assert!(!c.proxy_authenticate_basic);
            assert_eq!(c.location, Some(b"https://example.com/x".to_vec()));
        }
        _ => panic!("plain HTTP without a session must redirect"),
    }
}

#[test]
fn https_without_session_gets_407() {
    let mut h = handler();
    let d = h.handle_request(&get_request(b"https://example.com/x"), 1000);
    match d {
        Decision::Respond(c) => assert_eq!(c.status, 407),
        _ => panic!("HTTPS without a session must get 407"),
    }
}

#[test]
fn expired_session_is_treated_as_no_session() {
    let mut h = handler();
    let d = h.handle_request(
        &connect_request(Some(b"customer-user123-session_id-abc-country-US-session_time-1:foo")),
        1000,
    );
    assert!(matches!(d, Decision::PassThrough));
    // Two seconds later the one-second session has expired.
    let d = h.handle_request(&get_request(b"https://example.com/"), 1002);
    match d {
        Decision::Respond(c) => assert_eq!(c.status, 407),
        _ => panic!("an expired session must be treated as absent"),
    }
}

#[test]
fn upstream_failure_gets_500() {
    let reply = finish_forward(Err(UpstreamError));
    match reply {
        ProxyReply::Canned(c) => {
            assert_eq!(c.status, 500);
            assert!(!c.proxy_authenticate_basic);
            assert!(c.location.is_none());
        }
        _ => panic!("a transport failure must become 500"),
    }
}

#[test]
fn out_of_range_status_becomes_500() {
    let mut parts = response_200();
    parts.status = 99;
    match finish_forward(Ok(parts)) {
        ProxyReply::Canned(c) => assert_eq!(c.status, 500),
        _ => panic!("an unconvertible response must become 500"),
    }
}

#[test]
fn conversion_moves_fields_unchanged() {
    let p = response_upstream_to_proxy(response_200()).unwrap();
    assert_eq!(p.status, 200);
    assert_eq!(p.version, HttpVersion::Http11);
    assert_eq!(p.headers, vec![(b"content-type".to_vec(), b"text/html".to_vec())]);
    assert_eq!(p.body, b"ok".to_vec());
    let mut bad = response_200();
    bad.status = 1000;
    assert!(response_upstream_to_proxy(bad).is_err());
}

#[test]
fn https_equivalent_rewrites_the_scheme_only() {
    assert_eq!(
        https_equivalent(&b"http://example.com/x".to_vec()),
        Some(b"https://example.com/x".to_vec())
    );
    assert_eq!(https_equivalent(&b"https://example.com/x".to_vec()), None);
    assert_eq!(https_equivalent(&b"example.com:443".to_vec()), None);
}

#[test]
fn canned_responses_have_their_shapes() {
    let c = auth_needed();
    assert_eq!((c.status, c.proxy_authenticate_basic, c.location), (407, true, None));
    let c = permanent_redirect(b"https://example.com/".to_vec());
    assert_eq!(c.status, 308);
    assert_eq!(c.location, Some(b"https://example.com/".to_vec()));
    let c = internal_server_error();
    assert_eq!((c.status, c.proxy_authenticate_basic, c.location), (500, false, None));
}

#[test]
fn route_tag_is_the_country() {
    let s = hud_proxy::auth::parse_credentials(
        &b"customer-a-session_id-s-country-DE-session_time-1:pw".to_vec(),
        &b"10.0.0.1:5000".to_vec(),
    )
    .unwrap();
    assert_eq!(get_route_type(&s), b"DE".to_vec());
}

#[test]
fn replace_headers_overwrites_and_appends() {
    let mut dst = vec![
        (b"host".to_vec(), b"a".to_vec()),
        (b"accept".to_vec(), b"b".to_vec()),
        (b"host".to_vec(), b"a2".to_vec()),
    ];
    let src = vec![
        (Some(b"host".to_vec()), b"x".to_vec()),
        (None, b"y".to_vec()),
        (Some(b"cookie".to_vec()), b"z".to_vec()),
    ];
    replace_headers(&mut dst, src);
    assert_eq!(
        dst,
        vec![
            (b"accept".to_vec(), b"b".to_vec()),
            (b"host".to_vec(), b"x".to_vec()),
            (b"host".to_vec(), b"y".to_vec()),
            (b"cookie".to_vec(), b"z".to_vec()),
        ]
    );
}

#[test]
fn ca_profile_is_fixed() {
    let p = hud_proxy::ca::ca_profile();
    assert_eq!(p.common_name, b"hud-proxy".to_vec());
    assert_eq!(p.organization, b"hud-proxy".to_vec());
    assert_eq!(p.country, b"US".to_vec());
    assert_eq!(p.state, b"NY".to_vec());
    assert_eq!(p.locality, b"NYC".to_vec());
    assert!(p.key_cert_sign && p.crl_sign && p.is_ca);
}

#[test]
fn decimal_parse_and_format() {
    assert_eq!(hud_proxy::bytes::parse_u64(&b"300".to_vec()), Some(300));
    assert_eq!(hud_proxy::bytes::parse_u64(&b"0".to_vec()), Some(0));
    assert_eq!(hud_proxy::bytes::parse_u64(&b"".to_vec()), None);
    assert_eq!(hud_proxy::bytes::parse_u64(&b"12a".to_vec()), None);
    assert_eq!(
        hud_proxy::bytes::parse_u64(&b"18446744073709551615".to_vec()),
        Some(u64::MAX)
    );
    assert_eq!(hud_proxy::bytes::parse_u64(&b"18446744073709551616".to_vec()), None);
    assert_eq!(hud_proxy::bytes::format_u64(0), b"0".to_vec());
    assert_eq!(hud_proxy::bytes::format_u64(300), b"300".to_vec());
    assert_eq!(
        hud_proxy::bytes::format_u64(u64::MAX),
        b"18446744073709551615".to_vec()
    );
}

#[test]
fn handle_response_passes_back_unchanged() {
    let mut h = handler();
    let p = response_upstream_to_proxy(response_200()).unwrap();
    let r = h.handle_response(p);
    assert_eq!(r.status, 200);
    assert_eq!(r.body, b"ok".to_vec());
}

#[test]
fn client_for_misses_on_an_unknown_key() {
    let mut h = handler();
    let d = h.handle_request(
        &connect_request(Some(b"customer-user123-session_id-abc-country-US-session_time-300:foo")),
        1000,
    );
    assert!(matches!(d, Decision::PassThrough));
    match h.handle_request(&get_request(b"https://example.com/"), 1001) {
        Decision::Forward { client_key, .. } => {
            assert_eq!(h.client_for(&client_key, 1001), None);
        }
        _ => panic!("a request inside a live session must forward"),
    }
}
