//! The certificate authority's fixed profile: the distinguished name and the
//! key usages that the boot-time generator must use. Generating and
//! persisting the certificate itself is outside work.
use vstd::prelude::*;

verus! {

/// The bytes of `hud-proxy`.
pub open spec fn ca_name() -> Seq<u8> {
    seq![104u8, 117u8, 100u8, 45u8, 112u8, 114u8, 111u8, 120u8, 121u8]
}

/// The bytes of `US`.
pub open spec fn ca_country() -> Seq<u8> {
    seq![85u8, 83u8]
}

/// The bytes of `NY`.
pub open spec fn ca_state() -> Seq<u8> {
    seq![78u8, 89u8]
}

/// The bytes of `NYC`.
pub open spec fn ca_locality() -> Seq<u8> {
    seq![78u8, 89u8, 67u8]
}

/// The subject fields and key usages of the proxy's certificate authority.
pub struct CaProfile {
    /// The common name.
    pub common_name: Vec<u8>,
    /// The organization name.
    pub organization: Vec<u8>,
    /// The country.
    pub country: Vec<u8>,
    /// The state or province.
    pub state: Vec<u8>,
    /// The locality.
    pub locality: Vec<u8>,
    /// Whether the certificate may sign certificates.
    pub key_cert_sign: bool,
    /// Whether the certificate may sign revocation lists.
    pub crl_sign: bool,
    /// Whether the certificate is a certificate authority.
    pub is_ca: bool,
}

/// The one profile the proxy's authority is generated with: common name and
/// organization `hud-proxy`, country `US`, state `NY`, locality `NYC`, a
/// certificate authority allowed to sign certificates and revocation lists.
pub fn ca_profile() -> (r: CaProfile)
    ensures
        r.common_name@ == ca_name(),
        r.organization@ == ca_name(),
        r.country@ == ca_country(),
        r.state@ == ca_state(),
        r.locality@ == ca_locality(),
        r.key_cert_sign && r.crl_sign && r.is_ca,
{
    let mut name: Vec<u8> = Vec::new();
    name.push(104u8);
    name.push(117u8);
    name.push(100u8);
    name.push(45u8);
    name.push(112u8);
    name.push(114u8);
    name.push(111u8);
    name.push(120u8);
    name.push(121u8);
    proof {
        assert(name@ =~= ca_name());
    }
    let organization = crate::bytes::copy_bytes(&name);
    let mut country: Vec<u8> = Vec::new();
    country.push(85u8);
    country.push(83u8);
    proof {
        assert(country@ =~= ca_country());
    }
    let mut state: Vec<u8> = Vec::new();
    state.push(78u8);
    state.push(89u8);
    proof {
        assert(state@ =~= ca_state());
    }
    let mut locality: Vec<u8> = Vec::new();
    locality.push(78u8);
    locality.push(89u8);
    locality.push(67u8);
    proof {
        assert(locality@ =~= ca_locality());
    }
    CaProfile {
        common_name: name,
        organization,
        country,
        state,
        locality,
        key_cert_sign: true,
        crl_sign: true,
        is_ca: true,
    }
}

} // verus!
