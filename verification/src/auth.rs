//! Authentication: turning a `Proxy-Authorization` header into a [`Session`].
//!
//! The header must read `Basic <base64>`; the decoded credential must be
//! UTF-8 of the form `key-value-...-key-value:password`, where the keys
//! `customer`, `session_id`, `country` and `session_time` all appear, later
//! duplicates overwrite earlier ones, and unknown keys are ignored.
use vstd::prelude::*;
use base64::Engine;

use crate::bytes::{
    append_bytes, bytes_eq, copy_bytes, dec_val, find_last, find_last_byte, is_dec_digits,
    parse_u64, split_bytes, split_on, starts_with, sub_bytes,
};

verus! {

/// The bytes of the ASCII prefix `Basic ` (space included).
pub open spec fn basic_prefix() -> Seq<u8> {
    seq![66u8, 97u8, 115u8, 105u8, 99u8, 32u8]
}

/// The bytes of the key `customer`.
pub open spec fn customer_key() -> Seq<u8> {
    seq![99u8, 117u8, 115u8, 116u8, 111u8, 109u8, 101u8, 114u8]
}

/// The bytes of the key `session_id`.
pub open spec fn session_id_key() -> Seq<u8> {
    seq![115u8, 101u8, 115u8, 115u8, 105u8, 111u8, 110u8, 95u8, 105u8, 100u8]
}

/// The bytes of the key `country`.
pub open spec fn country_key() -> Seq<u8> {
    seq![99u8, 111u8, 117u8, 110u8, 116u8, 114u8, 121u8]
}

/// The bytes of the key `session_time`.
pub open spec fn session_time_key() -> Seq<u8> {
    seq![115u8, 101u8, 115u8, 115u8, 105u8, 111u8, 110u8, 95u8, 116u8, 105u8, 109u8, 101u8]
}

fn basic_prefix_bytes() -> (r: Vec<u8>)
    ensures
        r@ == basic_prefix(),
{
    let mut v: Vec<u8> = Vec::new();
    v.push(66u8);
    v.push(97u8);
    v.push(115u8);
    v.push(105u8);
    v.push(99u8);
    v.push(32u8);
    proof {
        assert(v@ =~= basic_prefix());
    }
    v
}

fn customer_key_bytes() -> (r: Vec<u8>)
    ensures
        r@ == customer_key(),
{
    let mut v: Vec<u8> = Vec::new();
    v.push(99u8);
    v.push(117u8);
    v.push(115u8);
    v.push(116u8);
    v.push(111u8);
    v.push(109u8);
    v.push(101u8);
    v.push(114u8);
    proof {
        assert(v@ =~= customer_key());
    }
    v
}

fn session_id_key_bytes() -> (r: Vec<u8>)
    ensures
        r@ == session_id_key(),
{
    let mut v: Vec<u8> = Vec::new();
    v.push(115u8);
    v.push(101u8);
    v.push(115u8);
    v.push(115u8);
    v.push(105u8);
    v.push(111u8);
    v.push(110u8);
    v.push(95u8);
    v.push(105u8);
    v.push(100u8);
    proof {
        assert(v@ =~= session_id_key());
    }
    v
}

fn country_key_bytes() -> (r: Vec<u8>)
    ensures
        r@ == country_key(),
{
    let mut v: Vec<u8> = Vec::new();
    v.push(99u8);
    v.push(111u8);
    v.push(117u8);
    v.push(110u8);
    v.push(116u8);
    v.push(114u8);
    v.push(121u8);
    proof {
        assert(v@ =~= country_key());
    }
    v
}

fn session_time_key_bytes() -> (r: Vec<u8>)
    ensures
        r@ == session_time_key(),
{
    let mut v: Vec<u8> = Vec::new();
    v.push(115u8);
    v.push(101u8);
    v.push(115u8);
    v.push(115u8);
    v.push(105u8);
    v.push(111u8);
    v.push(110u8);
    v.push(95u8);
    v.push(116u8);
    v.push(105u8);
    v.push(109u8);
    v.push(101u8);
    proof {
        assert(v@ =~= session_time_key());
    }
    v
}

/// What base64's standard-alphabet decode returns for the given input, when
/// it succeeds; `None` stands for a rejected input.
pub uninterp spec fn base64_decode_of(s: Seq<u8>) -> Option<Seq<u8>>;

/// Relies on base64's STANDARD engine: it decodes the standard alphabet,
/// requires canonical padding, and its result is a function of the input
/// bytes alone.
#[verifier::external_body]
fn base64_decode(s: &Vec<u8>) -> (r: Option<Vec<u8>>)
    ensures
        match r {
            Some(v) => base64_decode_of(s@) == Some(v@),
            None => base64_decode_of(s@) is None,
        },
{
    base64::engine::general_purpose::STANDARD.decode(s.as_slice()).ok()
}

/// Relies on std's str::from_utf8: it accepts exactly the valid UTF-8 byte
/// sequences, which vstd's `valid_utf8` describes.
#[verifier::external_body]
fn utf8_ok(v: &Vec<u8>) -> (r: bool)
    ensures
        r == vstd::utf8::valid_utf8(v@),
{
    core::str::from_utf8(v.as_slice()).is_ok()
}

/// Why a `Session` could not be made from a request.
#[derive(Debug, Clone, Copy, PartialEq, Eq, Structural)]
pub enum CreateSessionError {
    /// The `Proxy-Authorization` header was present but did not yield valid
    /// session data.
    MalformedHeader,
    /// No `Proxy-Authorization` header was provided.
    NoAuthHeader,
}

/// A username-derived field: non-empty, at most 32 bytes, free of the `-`
/// separator.
pub open spec fn valid_field(s: Seq<u8>) -> bool {
    1 <= s.len() <= 32 && !s.contains(45u8)
}

/// A password: non-empty, at most 64 bytes, free of the `:` separator.
pub open spec fn valid_password(s: Seq<u8>) -> bool {
    1 <= s.len() <= 64 && !s.contains(58u8)
}

/// The mathematical content of a [`Session`].
pub ghost struct SessionView {
    pub client_addr: Seq<u8>,
    pub customer: Seq<u8>,
    pub session_id: Seq<u8>,
    pub country: Seq<u8>,
    pub session_time: u64,
    pub password: Seq<u8>,
}

impl SessionView {
    /// Every parsed session satisfies this: the four username-derived fields
    /// are in bounds and separator-free, and so is the password.
    pub open spec fn wf(self) -> bool {
        valid_field(self.customer) && valid_field(self.session_id) && valid_field(self.country)
            && valid_password(self.password)
    }
}

/// An authenticated connection: the parsed credential fields together with
/// the client's address.
pub struct Session {
    client_addr: Vec<u8>,
    customer: Vec<u8>,
    session_id: Vec<u8>,
    country: Vec<u8>,
    session_time: u64,
    password: Vec<u8>,
}

impl View for Session {
    type V = SessionView;

    closed spec fn view(&self) -> SessionView {
        SessionView {
            client_addr: self.client_addr@,
            customer: self.customer@,
            session_id: self.session_id@,
            country: self.country@,
            session_time: self.session_time,
            password: self.password@,
        }
    }
}

impl Clone for Session {
    fn clone(&self) -> (r: Self)
        ensures
            r@ == self@,
    {
        Session {
            client_addr: copy_bytes(&self.client_addr),
            customer: copy_bytes(&self.customer),
            session_id: copy_bytes(&self.session_id),
            country: copy_bytes(&self.country),
            session_time: self.session_time,
            password: copy_bytes(&self.password),
        }
    }
}

/// The value of the last pair whose key matches, among the successive
/// (key, value) pairs of an even-length token list.
pub open spec fn pair_lookup(toks: Seq<Seq<u8>>, key: Seq<u8>) -> Option<Seq<u8>>
    decreases toks.len(),
{
    if toks.len() < 2 {
        None
    } else if toks[toks.len() - 2] == key {
        Some(toks[toks.len() - 1])
    } else {
        pair_lookup(toks.take(toks.len() - 2), key)
    }
}

/// Parsing a decoded credential: split on the last `:` into username blob and
/// password, split the blob on `-` into an even token list, read the four
/// required keys, and enforce the length and numeral bounds.
pub open spec fn creds_parse(s: Seq<u8>, addr: Seq<u8>) -> Option<SessionView> {
    let ci = find_last(s, 58u8);
    if ci < 0 {
        None
    } else {
        let blob = s.take(ci);
        let pw = s.skip(ci + 1);
        let toks = split_on(blob, 45u8);
        if toks.len() % 2 != 0 {
            None
        } else {
            let c = pair_lookup(toks, customer_key());
            let sid = pair_lookup(toks, session_id_key());
            let co = pair_lookup(toks, country_key());
            let ts = pair_lookup(toks, session_time_key());
            if c is Some && sid is Some && co is Some && ts is Some {
                let cv = c->Some_0;
                let sidv = sid->Some_0;
                let cov = co->Some_0;
                let tsv = ts->Some_0;
                if 1 <= cv.len() <= 32 && 1 <= sidv.len() <= 32 && 1 <= cov.len() <= 32 && 1
                    <= tsv.len() <= 32 && 1 <= pw.len() <= 64 && is_dec_digits(tsv) && dec_val(tsv)
                    <= u64::MAX {
                    Some(
                        SessionView {
                            client_addr: addr,
                            customer: cv,
                            session_id: sidv,
                            country: cov,
                            session_time: dec_val(tsv) as u64,
                            password: pw,
                        },
                    )
                } else {
                    None
                }
            } else {
                None
            }
        }
    }
}

/// The session encoded by a full `Proxy-Authorization` header value: the
/// `Basic ` prefix, then base64 of a UTF-8 credential that parses.
pub open spec fn header_session(h: Seq<u8>, addr: Seq<u8>) -> Option<SessionView> {
    if h.len() < 6 || h.take(6) != basic_prefix() {
        None
    } else {
        match base64_decode_of(h.skip(6)) {
            Some(d) => if vstd::utf8::valid_utf8(d) {
                creds_parse(d, addr)
            } else {
                None
            },
            None => None,
        }
    }
}

/// Every piece of a split is free of the delimiter.
proof fn lemma_split_pieces_clean(s: Seq<u8>, d: u8)
    ensures
        forall|i: int|
            0 <= i < split_on(s, d).len() ==> !(#[trigger] split_on(s, d)[i]).contains(d),
    decreases s.len(),
{
    if s.len() > 0 {
        lemma_split_pieces_clean(s.drop_last(), d);
        let r0 = split_on(s.drop_last(), d);
        crate::bytes::lemma_split_on_len(s.drop_last(), d);
        if s[s.len() - 1] == d {
            assert forall|i: int|
                0 <= i < split_on(s, d).len() implies !(#[trigger] split_on(s, d)[i]).contains(
                d,
            ) by {
                if i < r0.len() {
                    assert(split_on(s, d)[i] == r0[i]);
                } else {
                    assert(split_on(s, d)[i] =~= Seq::<u8>::empty());
                }
            }
        } else {
            let last = r0[r0.len() - 1].push(s[s.len() - 1]);
            assert forall|i: int|
                0 <= i < split_on(s, d).len() implies !(#[trigger] split_on(s, d)[i]).contains(
                d,
            ) by {
                if i < r0.len() - 1 {
                    assert(split_on(s, d)[i] == r0[i]);
                } else {
                    assert(split_on(s, d)[i] == last);
                    assert(!r0[r0.len() - 1].contains(d));
                    if last.contains(d) {
                        let j = choose|j: int| 0 <= j < last.len() && last[j] == d;
                        assert(j < last.len() - 1 ==> r0[r0.len() - 1][j] == d);
                    }
                }
            }
        }
    }
}

/// A value found by `pair_lookup` is one of the tokens.
proof fn lemma_pair_lookup_member(toks: Seq<Seq<u8>>, key: Seq<u8>)
    requires
        pair_lookup(toks, key) is Some,
    ensures
        exists|j: int| 0 <= j < toks.len() && toks[j] == pair_lookup(toks, key)->Some_0,
    decreases toks.len(),
{
    if toks.len() >= 2 && toks[toks.len() - 2] != key {
        lemma_pair_lookup_member(toks.take(toks.len() - 2), key);
        let t = toks.take(toks.len() - 2);
        let j = choose|j: int| 0 <= j < t.len() && #[trigger] t[j] == pair_lookup(t, key)->Some_0;
        assert(toks[j] == pair_lookup(toks, key)->Some_0);
    }
}

/// The value of the last pair whose key matches, out of an even token list.
fn lookup_pair_value(toks: &Vec<Vec<u8>>, key: &Vec<u8>) -> (r: Option<Vec<u8>>)
    requires
        toks@.len() % 2 == 0,
    ensures
        match r {
            Some(v) => pair_lookup(toks.deep_view(), key@) == Some(v@),
            None => pair_lookup(toks.deep_view(), key@) is None,
        },
{
    let ghost full = toks.deep_view();
    let n = toks.len();
    let mut k: usize = n / 2;
    proof {
        assert(full.len() == toks@.len());
        assert(2 * ((n / 2) as int) == full.len());
        assert(full.take(full.len() as int) =~= full);
    }
    while k > 0
        invariant
            2 * k <= n,
            n == toks@.len(),
            full == toks.deep_view(),
            toks@.len() == full.len(),
            pair_lookup(full, key@) == pair_lookup(full.take(2 * k as int), key@),
        decreases k,
    {
        k = k - 1;
        let ghost t = full.take(2 * (k + 1) as int);
        proof {
            assert(t.len() == 2 * k + 2);
            assert(t[t.len() - 2] == full[2 * k as int]);
            assert(t[t.len() - 1] == full[2 * k + 1]);
            assert(t.take(t.len() - 2) =~= full.take(2 * k as int));
            assert(full[2 * k as int] == toks@[2 * k as int].deep_view());
            assert(toks@[2 * k as int].deep_view() =~= toks@[2 * k as int]@);
            assert(full[2 * k + 1] == toks@[2 * k + 1].deep_view());
            assert(toks@[2 * k + 1].deep_view() =~= toks@[2 * k + 1]@);
        }
        let tk = &toks[2 * k];
        if bytes_eq(tk, key) {
            let v = copy_bytes(&toks[2 * k + 1]);
            return Some(v);
        }
    }
    proof {
        assert(full.take(0) =~= Seq::<Seq<u8>>::empty());
    }
    None
}

/// Parses a decoded credential into a session for the given client address.
/// Returns `Some` exactly when `creds_parse` accepts the bytes; the returned
/// session is the parsed one and is well formed.
pub fn parse_credentials(creds: &Vec<u8>, client_addr: &Vec<u8>) -> (r: Option<Session>)
    ensures
        match r {
            Some(s) => creds_parse(creds@, client_addr@) == Some(s@) && s@.wf(),
            None => creds_parse(creds@, client_addr@) is None,
        },
{
    let ci = match find_last_byte(creds, 58u8) {
        Some(i) => i,
        None => {
            return None;
        },
    };
    let creds_len = creds.len();
    proof {
        crate::bytes::lemma_find_last(creds@, 58u8);
    }
    let blob = sub_bytes(creds, 0, ci);
    let pw = sub_bytes(creds, ci + 1, creds_len);
    proof {
        assert(blob@ =~= creds@.take(ci as int));
        assert(pw@ =~= creds@.skip(ci + 1));
    }
    let toks = split_bytes(&blob, 45u8);
    if toks.len() % 2 != 0 {
        proof {
            assert(toks.deep_view().len() == toks@.len());
        }
        return None;
    }
    proof {
        assert(toks.deep_view().len() == toks@.len());
    }
    let customer = match lookup_pair_value(&toks, &customer_key_bytes()) {
        Some(v) => v,
        None => {
            return None;
        },
    };
    let session_id = match lookup_pair_value(&toks, &session_id_key_bytes()) {
        Some(v) => v,
        None => {
            return None;
        },
    };
    let country = match lookup_pair_value(&toks, &country_key_bytes()) {
        Some(v) => v,
        None => {
            return None;
        },
    };
    let ts = match lookup_pair_value(&toks, &session_time_key_bytes()) {
        Some(v) => v,
        None => {
            return None;
        },
    };
    if customer.len() < 1 || customer.len() > 32 || session_id.len() < 1 || session_id.len() > 32
        || country.len() < 1 || country.len() > 32 || ts.len() < 1 || ts.len() > 32 || pw.len() < 1
        || pw.len() > 64 {
        return None;
    }
    let session_time = match parse_u64(&ts) {
        Some(v) => v,
        None => {
            return None;
        },
    };
    proof {
        lemma_split_pieces_clean(blob@, 45u8);
        lemma_pair_lookup_member(toks.deep_view(), customer_key());
        lemma_pair_lookup_member(toks.deep_view(), session_id_key());
        lemma_pair_lookup_member(toks.deep_view(), country_key());
        assert(!customer@.contains(45u8));
        assert(!session_id@.contains(45u8));
        assert(!country@.contains(45u8));
        assert(!pw@.contains(58u8)) by {
            if pw@.contains(58u8) {
                let j = choose|j: int| 0 <= j < pw@.len() && pw@[j] == 58u8;
                assert(creds@[ci + 1 + j] == 58u8);
            }
        }
    }
    Some(
        Session {
            client_addr: copy_bytes(client_addr),
            customer,
            session_id,
            country,
            session_time,
            password: pw,
        },
    )
}

/// The canonical username blob of a session: the four keys with their values,
/// joined by `-`, in the order customer, session_id, country, session_time.
pub open spec fn username_of(v: SessionView) -> Seq<u8> {
    customer_key() + seq![45u8] + v.customer + seq![45u8] + session_id_key() + seq![45u8]
        + v.session_id + seq![45u8] + country_key() + seq![45u8] + v.country + seq![45u8]
        + session_time_key() + seq![45u8] + crate::bytes::dec_of(v.session_time as nat)
}

/// The canonical credential of a session: username blob, `:`, password.
pub open spec fn credential_of(v: SessionView) -> Seq<u8> {
    username_of(v) + seq![58u8] + v.password
}

impl Session {
    /// Parses the full `Proxy-Authorization` value: `Basic ` prefix, base64,
    /// UTF-8, then the credential grammar. `Ok` exactly when the header
    /// encodes a session.
    pub fn new(client_addr: &Vec<u8>, auth_header: &Vec<u8>) -> (r: Result<
        Session,
        CreateSessionError,
    >)
        ensures
            match r {
                Ok(s) => header_session(auth_header@, client_addr@) == Some(s@) && s@.wf(),
                Err(e) => e == CreateSessionError::MalformedHeader && header_session(
                    auth_header@,
                    client_addr@,
                ) is None,
            },
    {
        let prefix = basic_prefix_bytes();
        if !starts_with(auth_header, &prefix) {
            return Err(CreateSessionError::MalformedHeader);
        }
        let header_len = auth_header.len();
        let b64 = sub_bytes(auth_header, 6, header_len);
        proof {
            assert(b64@ =~= auth_header@.skip(6));
        }
        let decoded = match base64_decode(&b64) {
            Some(d) => d,
            None => {
                return Err(CreateSessionError::MalformedHeader);
            },
        };
        if !utf8_ok(&decoded) {
            return Err(CreateSessionError::MalformedHeader);
        }
        match parse_credentials(&decoded, client_addr) {
            Some(s) => Ok(s),
            None => Err(CreateSessionError::MalformedHeader),
        }
    }

    /// The canonical username blob, rebuilt from the parsed fields.
    pub fn username(&self) -> (r: Vec<u8>)
        ensures
            r@ == username_of(self@),
    {
        let mut v = customer_key_bytes();
        v.push(45u8);
        append_bytes(&mut v, &self.customer);
        v.push(45u8);
        append_bytes(&mut v, &session_id_key_bytes());
        v.push(45u8);
        append_bytes(&mut v, &self.session_id);
        v.push(45u8);
        append_bytes(&mut v, &country_key_bytes());
        v.push(45u8);
        append_bytes(&mut v, &self.country);
        v.push(45u8);
        append_bytes(&mut v, &session_time_key_bytes());
        v.push(45u8);
        let ts = crate::bytes::format_u64(self.session_time);
        append_bytes(&mut v, &ts);
        proof {
            assert(v@ =~= username_of(self@));
        }
        v
    }

    /// The canonical credential: username blob, `:`, password.
    pub fn serialize_credentials(&self) -> (r: Vec<u8>)
        ensures
            r@ == credential_of(self@),
    {
        let mut v = self.username();
        v.push(58u8);
        append_bytes(&mut v, &self.password);
        proof {
            assert(v@ =~= credential_of(self@));
        }
        v
    }

    pub fn password(&self) -> (r: &Vec<u8>)
        ensures
            r@ == self@.password,
    {
        &self.password
    }

    pub fn customer(&self) -> (r: &Vec<u8>)
        ensures
            r@ == self@.customer,
    {
        &self.customer
    }

    pub fn session_id(&self) -> (r: &Vec<u8>)
        ensures
            r@ == self@.session_id,
    {
        &self.session_id
    }

    pub fn country(&self) -> (r: &Vec<u8>)
        ensures
            r@ == self@.country,
    {
        &self.country
    }

    pub fn session_time(&self) -> (r: u64)
        ensures
            r == self@.session_time,
    {
        self.session_time
    }

    pub fn client_addr(&self) -> (r: &Vec<u8>)
        ensures
            r@ == self@.client_addr,
    {
        &self.client_addr
    }
}

/// The authorization hook, consulted after parsing succeeds. The default
/// policy accepts every parsed session; a replacement must stay
/// side-effect-free. This contract pins the default: it never rejects.
pub fn authorize(session: &Session) -> (r: bool)
    ensures
        r,
{
    let _ = session;
    true
}

/// Authenticates a request from its client address and its
/// `Proxy-Authorization` header, if one was sent. `Ok` exactly when the
/// header is present and encodes a session; a missing header and a malformed
/// one are told apart.
pub fn handle_auth(client_addr: &Vec<u8>, proxy_auth: Option<&Vec<u8>>) -> (r: Result<
    Session,
    CreateSessionError,
>)
    ensures
        match r {
            Ok(s) => proxy_auth matches Some(h) && header_session(h@, client_addr@) == Some(s@)
                && s@.wf(),
            Err(e) => match proxy_auth {
                None => e == CreateSessionError::NoAuthHeader,
                Some(h) => e == CreateSessionError::MalformedHeader && header_session(
                    h@,
                    client_addr@,
                ) is None,
            },
        },
{
    match proxy_auth {
        Some(h) => Session::new(client_addr, h),
        None => Err(CreateSessionError::NoAuthHeader),
    }
}

/// Joining eight pieces is the same as writing them out with the delimiter
/// between each two.
proof fn lemma_join8(t: Seq<Seq<u8>>, d: u8)
    requires
        t.len() == 8,
    ensures
        crate::bytes::join_with(t, d) == t[0] + seq![d] + t[1] + seq![d] + t[2] + seq![d] + t[3]
            + seq![d] + t[4] + seq![d] + t[5] + seq![d] + t[6] + seq![d] + t[7],
{
    let j = |k: int| crate::bytes::join_with(t.take(k), d);
    assert(t.take(1).drop_last() =~= t.take(0));
    assert(t.take(2).drop_last() =~= t.take(1));
    assert(t.take(3).drop_last() =~= t.take(2));
    assert(t.take(4).drop_last() =~= t.take(3));
    assert(t.take(5).drop_last() =~= t.take(4));
    assert(t.take(6).drop_last() =~= t.take(5));
    assert(t.take(7).drop_last() =~= t.take(6));
    assert(t.take(8).drop_last() =~= t.take(7));
    assert(t.take(8) =~= t);
    assert(t.take(1)[0] == t[0]);
    assert(j(1) == t[0]);
    assert(j(2) == j(1) + seq![d] + t[1]);
    assert(j(3) == j(2) + seq![d] + t[2]);
    assert(j(4) == j(3) + seq![d] + t[3]);
    assert(j(5) == j(4) + seq![d] + t[4]);
    assert(j(6) == j(5) + seq![d] + t[5]);
    assert(j(7) == j(6) + seq![d] + t[6]);
    assert(crate::bytes::join_with(t, d) == j(7) + seq![d] + t[7]);
}

/// The token list that the canonical username blob splits into.
pub open spec fn canonical_tokens(v: SessionView) -> Seq<Seq<u8>> {
    seq![
        customer_key(),
        v.customer,
        session_id_key(),
        v.session_id,
        country_key(),
        v.country,
        session_time_key(),
        crate::bytes::dec_of(v.session_time as nat),
    ]
}

/// A key literal holds no `-` byte.
proof fn lemma_keys_clean()
    ensures
        !customer_key().contains(45u8),
        !session_id_key().contains(45u8),
        !country_key().contains(45u8),
        !session_time_key().contains(45u8),
        !customer_key().contains(58u8),
        !session_id_key().contains(58u8),
        !country_key().contains(58u8),
        !session_time_key().contains(58u8),
{
    assert(forall|j: int| 0 <= j < 8 ==> customer_key()[j] != 45u8 && customer_key()[j] != 58u8);
    assert(forall|j: int|
        0 <= j < 10 ==> session_id_key()[j] != 45u8 && session_id_key()[j] != 58u8);
    assert(forall|j: int| 0 <= j < 7 ==> country_key()[j] != 45u8 && country_key()[j] != 58u8);
    assert(forall|j: int|
        0 <= j < 12 ==> session_time_key()[j] != 45u8 && session_time_key()[j] != 58u8);
    if customer_key().contains(45u8) {
        let j = choose|j: int| 0 <= j < customer_key().len() && customer_key()[j] == 45u8;
    }
    if customer_key().contains(58u8) {
        let j = choose|j: int| 0 <= j < customer_key().len() && customer_key()[j] == 58u8;
    }
    if session_id_key().contains(45u8) {
        let j = choose|j: int| 0 <= j < session_id_key().len() && session_id_key()[j] == 45u8;
    }
    if session_id_key().contains(58u8) {
        let j = choose|j: int| 0 <= j < session_id_key().len() && session_id_key()[j] == 58u8;
    }
    if country_key().contains(45u8) {
        let j = choose|j: int| 0 <= j < country_key().len() && country_key()[j] == 45u8;
    }
    if country_key().contains(58u8) {
        let j = choose|j: int| 0 <= j < country_key().len() && country_key()[j] == 58u8;
    }
    if session_time_key().contains(45u8) {
        let j = choose|j: int| 0 <= j < session_time_key().len() && session_time_key()[j] == 45u8;
    }
    if session_time_key().contains(58u8) {
        let j = choose|j: int| 0 <= j < session_time_key().len() && session_time_key()[j] == 58u8;
    }
}

/// Parsing a canonical credential yields the session it was written from:
/// serialization and parsing are mutually inverse on well-formed sessions.
pub proof fn lemma_credential_round_trip(v: SessionView)
    requires
        v.wf(),
    ensures
        creds_parse(credential_of(v), v.client_addr) == Some(v),
{
    let t = crate::bytes::dec_of(v.session_time as nat);
    crate::bytes::lemma_dec_of_props(v.session_time as nat);
    crate::bytes::lemma_dec_of_len_u64(v.session_time as nat);
    let toks = canonical_tokens(v);
    lemma_join8(toks, 45u8);
    let blob = username_of(v);
    assert(blob == crate::bytes::join_with(toks, 45u8));
    let c = credential_of(v);
    let bl = blob.len() as int;
    assert(c[bl] == 58u8);
    assert forall|j: int| bl < j < c.len() implies c[j] != 58u8 by {
        assert(c[j] == v.password[j - bl - 1]);
        if v.password[j - bl - 1] == 58u8 {
            assert(v.password.contains(58u8));
        }
    }
    crate::bytes::lemma_find_last_at(c, 58u8, bl);
    assert(c.take(bl) =~= blob);
    assert(c.skip(bl + 1) =~= v.password);
    lemma_keys_clean();
    assert forall|i: int| 0 <= i < toks.len() implies !(#[trigger] toks[i]).contains(45u8) by {
        if i == 7 && toks[i].contains(45u8) {
            let j = choose|j: int| 0 <= j < t.len() && t[j] == 45u8;
            assert(crate::bytes::is_dec_digits(t));
            assert(0x30 <= t[j] <= 0x39);
        }
    }
    crate::bytes::lemma_split_join(toks, 45u8);
    assert(split_on(blob, 45u8) == toks);
    assert(toks.len() % 2 == 0);
    assert(customer_key().len() == 8 && session_id_key().len() == 10 && country_key().len() == 7
        && session_time_key().len() == 12);
    let t6 = toks.take(6);
    let t4 = toks.take(4);
    let t2 = toks.take(2);
    assert(t6 =~= seq![
        customer_key(),
        v.customer,
        session_id_key(),
        v.session_id,
        country_key(),
        v.country,
    ]);
    assert(t4 =~= seq![customer_key(), v.customer, session_id_key(), v.session_id]);
    assert(t2 =~= seq![customer_key(), v.customer]);
    assert(t6.take(4) =~= t4);
    assert(t4.take(2) =~= t2);
    assert(t2.take(0) =~= Seq::<Seq<u8>>::empty());
    assert(pair_lookup(toks, session_time_key()) == Some(t));
    assert(pair_lookup(toks, country_key()) == pair_lookup(t6, country_key()));
    assert(pair_lookup(t6, country_key()) == Some(v.country));
    assert(pair_lookup(toks, session_id_key()) == pair_lookup(t6, session_id_key()));
    assert(pair_lookup(t6, session_id_key()) == pair_lookup(t4, session_id_key()));
    assert(pair_lookup(t4, session_id_key()) == Some(v.session_id));
    assert(pair_lookup(toks, customer_key()) == pair_lookup(t6, customer_key()));
    assert(pair_lookup(t6, customer_key()) == pair_lookup(t4, customer_key()));
    assert(pair_lookup(t4, customer_key()) == pair_lookup(t2, customer_key()));
    assert(pair_lookup(t2, customer_key()) == Some(v.customer));
    assert(creds_parse(c, v.client_addr) == Some(v));
}

} // verus!
