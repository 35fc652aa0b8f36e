//! Certificates and keys in PEM texts.
use rustls::pki_types::pem::{Error, PemObject};
use rustls::pki_types::{CertificateDer, PrivateKeyDer};
use vstd::prelude::*;
use vstd::string::*;

verus! {

/// The certificates in a PEM text, or why it cannot be read.
pub uninterp spec fn pem_certificates(pem: Seq<u8>) -> Result<Seq<Seq<u8>>, Seq<char>>;

/// `PemObject::pem_slice_iter` of `rustls`'s `CertificateDer`, collected: the
/// certificates in order, or the first error in its own words.
#[verifier::external_body]
pub(crate) fn certs_of_pem(pem: &[u8]) -> (r: Result<Vec<Vec<u8>>, String>)
    ensures
        match (r, pem_certificates(pem@)) {
            (Ok(v), Ok(s)) => der_views(v@) == s,
            (Err(e), Err(t)) => e@ == t,
            _ => false,
        },
{
    let certs = CertificateDer::pem_slice_iter(pem).map(|c| c.map(|d| d.as_ref().to_vec()));
    certs.collect::<Result<Vec<Vec<u8>>, _>>().map_err(|e| e.to_string())
}

pub open spec fn der_views(v: Seq<Vec<u8>>) -> Seq<Seq<u8>> {
    v.map_values(|c: Vec<u8>| c@)
}

/// The form that a private key is written in.
#[derive(Debug, Clone, Copy, PartialEq, Eq, Structural)]
pub enum KeyKind {
    Pkcs1,
    Sec1,
    Pkcs8,
}

/// A private key as it stands in a PEM text.
pub struct PemKey {
    pub kind: KeyKind,
    pub der: Vec<u8>,
}

#[verifier::ext_equal]
pub struct PemKeyView {
    pub kind: KeyKind,
    pub der: Seq<u8>,
}

impl View for PemKey {
    type V = PemKeyView;

    open spec fn view(&self) -> PemKeyView {
        PemKeyView { kind: self.kind, der: self.der@ }
    }
}

/// Why a PEM text gives no private key.
#[derive(Debug)]
pub struct PemFault {
    /// There is none in it.
    pub absent: bool,
    pub text: String,
}

#[verifier::ext_equal]
pub struct PemFaultView {
    pub absent: bool,
    pub text: Seq<char>,
}

impl View for PemFault {
    type V = PemFaultView;

    open spec fn view(&self) -> PemFaultView {
        PemFaultView { absent: self.absent, text: self.text@ }
    }
}

/// The first private key in a PEM text, or why there is none.
pub uninterp spec fn pem_key(pem: Seq<u8>) -> Result<PemKeyView, PemFaultView>;

/// `PemObject::from_pem_slice` of `rustls`'s `PrivateKeyDer`: the first private key of
/// any of the three forms, or the error in its own words, told apart where nothing was
/// found.
#[verifier::external_body]
pub(crate) fn key_of_pem(pem: &[u8]) -> (r: Result<PemKey, PemFault>)
    ensures
        match (r, pem_key(pem@)) {
            (Ok(k), Ok(v)) => k@ == v,
            (Err(e), Err(v)) => e@ == v,
            _ => false,
        },
{
    let key = PrivateKeyDer::from_pem_slice(pem)
        .map_err(|e| PemFault { absent: matches!(e, Error::NoItemsFound), text: e.to_string() })?;
    let kind = match &key {
        PrivateKeyDer::Pkcs1(_) => KeyKind::Pkcs1,
        PrivateKeyDer::Sec1(_) => KeyKind::Sec1,
        _ => KeyKind::Pkcs8,
    };
    Ok(PemKey { kind, der: key.secret_der().to_vec() })
}

} // verus!
