//! Who a certificate speaks for.
//!
//! Certificates of nodes carry the node's name as a URI, `dkms://` and the name.
use crate::config::opt_text;
use crate::pem::{certs_of_pem, der_views, pem_certificates};
use crate::text::{
    ascii_lower, chars_of, join2, join3, starts_with, strip_prefix, text_eq, to_ascii_lower,
};
use rustls::pki_types::{CertificateDer, UnixTime};
use std::time::Duration;
use vstd::prelude::*;
use vstd::string::*;
use webpki::aws_lc_rs::{
    ECDSA_P256_SHA256, ECDSA_P384_SHA384, ED25519, ML_DSA_65, RSA_PKCS1_2048_8192_SHA256,
    RSA_PKCS1_2048_8192_SHA384, RSA_PKCS1_2048_8192_SHA512, RSA_PSS_2048_8192_SHA256_LEGACY_KEY,
};
use webpki::{anchor_from_trusted_cert, EndEntityCert, KeyUsage};
use x509_parser::prelude::{FromDer, GeneralName, ParsedExtension, X509Certificate};

verus! {

/// Scheme of the URI that names a node.
pub const NODE_URI_SCHEME: &'static str = "dkms://";

/// An alternative name of a certificate's subject.
#[derive(Debug)]
pub enum AltName {
    Uri(String),
    Dns(String),
    Other,
}

pub enum AltNameView {
    Uri(Seq<char>),
    Dns(Seq<char>),
    Other,
}

impl View for AltName {
    type V = AltNameView;

    open spec fn view(&self) -> AltNameView {
        match *self {
            AltName::Uri(u) => AltNameView::Uri(u@),
            AltName::Dns(d) => AltNameView::Dns(d@),
            AltName::Other => AltNameView::Other,
        }
    }
}

/// What is read of a certificate.
#[derive(Debug)]
pub struct CertFields {
    /// For each extension its alternative names, or nothing if it is of another
    /// kind.
    pub extensions: Vec<Option<Vec<AltName>>>,
    /// The common names of the subject, or nothing for one that is no text.
    pub common_names: Vec<Option<String>>,
    pub public_key: Vec<u8>,
}

#[verifier::ext_equal]
pub struct FieldsView {
    pub extensions: Seq<Option<Seq<AltNameView>>>,
    pub common_names: Seq<Option<Seq<char>>>,
    pub public_key: Seq<u8>,
}

pub open spec fn alt_views(v: Option<Vec<AltName>>) -> Option<Seq<AltNameView>> {
    match v {
        Some(names) => Some(names@.map_values(|n: AltName| n@)),
        None => None,
    }
}

impl View for CertFields {
    type V = FieldsView;

    open spec fn view(&self) -> FieldsView {
        FieldsView {
            extensions: self.extensions@.map_values(|e: Option<Vec<AltName>>| alt_views(e)),
            common_names: self.common_names@.map_values(|c: Option<String>| opt_text(c)),
            public_key: self.public_key@,
        }
    }
}

/// What a certificate in DER says, if it is one.
pub uninterp spec fn x509_fields(der: Seq<u8>) -> Option<FieldsView>;

/// `x509_parser`'s `X509Certificate::from_der`, and of what it gives the
/// extensions, the subject's common names and the public key. All of it depends on
/// the bytes alone.
#[verifier::external_body]
fn parse_cert(der: &[u8]) -> (r: Option<CertFields>)
    ensures
        match r {
            Some(f) => x509_fields(der@) == Some(f@),
            None => x509_fields(der@) is None,
        },
{
    let (_, cert) = X509Certificate::from_der(der).ok()?;
    let extensions = cert.extensions().iter().map(|e| match e.parsed_extension() {
        ParsedExtension::SubjectAlternativeName(s) => Some(s.general_names.iter().map(|n| match n {
            GeneralName::URI(u) => AltName::Uri(u.to_string()),
            GeneralName::DNSName(d) => AltName::Dns(d.to_string()),
            _ => AltName::Other,
        }).collect()),
        _ => None,
    }).collect();
    let common_names = cert.subject().iter_common_name()
        .map(|c| c.as_str().ok().map(String::from)).collect();
    let public_key = cert.public_key().subject_public_key.data.to_vec();
    Some(CertFields { extensions, common_names, public_key })
}

/// The alternative names of all extensions, one after the other.
pub open spec fn all_names(extensions: Seq<Option<Seq<AltNameView>>>) -> Seq<AltNameView>
    decreases extensions.len(),
{
    if extensions.len() == 0 {
        Seq::empty()
    } else {
        all_names(extensions.drop_last()) + (match extensions.last() {
            Some(names) => names,
            None => Seq::empty(),
        })
    }
}

fn flat_names(extensions: &Vec<Option<Vec<AltName>>>) -> (r: Vec<&AltName>)
    ensures
        r@.map_values(|n: &AltName| n@) == all_names(
            extensions@.map_values(|e: Option<Vec<AltName>>| alt_views(e)),
        ),
{
    let ghost ev = extensions@.map_values(|e: Option<Vec<AltName>>| alt_views(e));
    let mut out: Vec<&AltName> = Vec::new();
    let n: usize = extensions.len();
    let mut i: usize = 0;
    assert(out@.map_values(|n: &AltName| n@) =~= all_names(ev.take(0)));
    while i < n
        invariant
            n == extensions@.len(),
            i <= n,
            ev == extensions@.map_values(|e: Option<Vec<AltName>>| alt_views(e)),
            out@.map_values(|n: &AltName| n@) == all_names(ev.take(i as int)),
        decreases n - i,
    {
        let ghost prior = out@.map_values(|n: &AltName| n@);
        assert(ev.take(i + 1).drop_last() =~= ev.take(i as int));
        assert(ev.take(i + 1).last() == alt_views(extensions@[i as int]));
        match &extensions[i] {
            Some(names) => {
                let ghost nv = names@.map_values(|n: AltName| n@);
                let m: usize = names.len();
                let mut j: usize = 0;
                assert(prior + nv.take(0) =~= prior);
                while j < m
                    invariant
                        m == names@.len(),
                        j <= m,
                        nv == names@.map_values(|n: AltName| n@),
                        out@.map_values(|n: &AltName| n@) == prior + nv.take(j as int),
                    decreases m - j,
                {
                    let ghost o0 = out@;
                    out.push(&names[j]);
                    assert(out@.map_values(|n: &AltName| n@) =~= o0.map_values(
                        |n: &AltName| n@,
                    ).push(names@[j as int]@));
                    assert(nv.take(j + 1) =~= nv.take(j as int).push(nv[j as int]));
                    assert(prior + nv.take(j + 1) =~= (prior + nv.take(j as int)).push(
                        nv[j as int],
                    ));
                    j = j + 1;
                }
                assert(nv.take(m as int) =~= nv);
            },
            None => {
                assert(prior + Seq::<AltNameView>::empty() =~= prior);
            },
        }
        i = i + 1;
    }
    assert(ev.take(n as int) =~= ev);
    out
}

/// The first URI among names.
pub open spec fn first_uri(names: Seq<AltNameView>) -> Option<Seq<char>>
    decreases names.len(),
{
    if names.len() == 0 {
        None
    } else {
        match names[0] {
            AltNameView::Uri(u) => Some(u),
            _ => first_uri(names.drop_first()),
        }
    }
}

/// The first host name among names.
pub open spec fn first_dns(names: Seq<AltNameView>) -> Option<Seq<char>>
    decreases names.len(),
{
    if names.len() == 0 {
        None
    } else {
        match names[0] {
            AltNameView::Dns(d) => Some(d),
            _ => first_dns(names.drop_first()),
        }
    }
}

/// The node that a name names, in small letters.
pub open spec fn node_named(name: AltNameView) -> Option<Seq<char>> {
    match name {
        AltNameView::Uri(u) => if starts_with(u, NODE_URI_SCHEME@) && u.len()
            > NODE_URI_SCHEME@.len() {
            Some(ascii_lower(u.skip(NODE_URI_SCHEME@.len() as int)))
        } else {
            None
        },
        _ => None,
    }
}

/// The first node among names.
pub open spec fn first_node(names: Seq<AltNameView>) -> Option<Seq<char>>
    decreases names.len(),
{
    if names.len() == 0 {
        None
    } else {
        match node_named(names[0]) {
            Some(n) => Some(n),
            None => first_node(names.drop_first()),
        }
    }
}

/// The identity in a certificate: its first URI, else its first host name, else its
/// first common name.
pub open spec fn identifier_of(f: FieldsView) -> Option<Seq<char>> {
    let names = all_names(f.extensions);
    match first_uri(names) {
        Some(u) => Some(u),
        None => match first_dns(names) {
            Some(d) => Some(d),
            None => if f.common_names.len() == 0 {
                None
            } else {
                f.common_names[0]
            },
        },
    }
}

/// As [`extract_san_identifier`], of what was read of a certificate.
pub fn identifier_from_fields(f: &CertFields) -> (r: Option<String>)
    ensures
        opt_text(r) == identifier_of(f@),
{
    let names = flat_names(&f.extensions);
    let ghost nv = names@.map_values(|n: &AltName| n@);
    let n: usize = names.len();
    let mut i: usize = 0;
    assert(nv.skip(0) =~= nv);
    while i < n
        invariant
            n == names@.len(),
            i <= n,
            nv == names@.map_values(|n: &AltName| n@),
            nv == all_names(f@.extensions),
            first_uri(nv) == first_uri(nv.skip(i as int)),
        decreases n - i,
    {
        assert(nv.skip(i as int).drop_first() =~= nv.skip(i + 1));
        assert(nv.skip(i as int)[0] == names@[i as int]@);
        if let AltName::Uri(u) = names[i] {
            return Some(u.as_str().to_owned());
        }
        i = i + 1;
    }
    let mut j: usize = 0;
    while j < n
        invariant
            n == names@.len(),
            j <= n,
            nv == names@.map_values(|n: &AltName| n@),
            nv == all_names(f@.extensions),
            first_uri(nv) is None,
            first_dns(nv) == first_dns(nv.skip(j as int)),
        decreases n - j,
    {
        assert(nv.skip(j as int).drop_first() =~= nv.skip(j + 1));
        assert(nv.skip(j as int)[0] == names@[j as int]@);
        if let AltName::Dns(d) = names[j] {
            return Some(d.as_str().to_owned());
        }
        j = j + 1;
    }
    if f.common_names.len() == 0 {
        return None;
    }
    match &f.common_names[0] {
        Some(c) => Some(c.as_str().to_owned()),
        None => None,
    }
}

/// The identity in a certificate.
pub fn extract_san_identifier(der: &[u8]) -> (r: Option<String>)
    ensures
        opt_text(r) == (match x509_fields(der@) {
            Some(f) => identifier_of(f),
            None => None,
        }),
{
    match parse_cert(der) {
        Some(f) => identifier_from_fields(&f),
        None => None,
    }
}

/// As [`node_id_from_cert`], of what was read of a certificate.
pub fn node_id_from_fields(f: &CertFields) -> (r: Option<String>)
    ensures
        opt_text(r) == first_node(all_names(f@.extensions)),
{
    let names = flat_names(&f.extensions);
    let ghost nv = names@.map_values(|n: &AltName| n@);
    let n: usize = names.len();
    let mut i: usize = 0;
    assert(nv.skip(0) =~= nv);
    while i < n
        invariant
            n == names@.len(),
            i <= n,
            nv == names@.map_values(|n: &AltName| n@),
            nv == all_names(f@.extensions),
            first_node(nv) == first_node(nv.skip(i as int)),
        decreases n - i,
    {
        assert(nv.skip(i as int).drop_first() =~= nv.skip(i + 1));
        assert(nv.skip(i as int)[0] == names@[i as int]@);
        if let AltName::Uri(u) = names[i] {
            if let Some(id) = strip_prefix(u.as_str(), NODE_URI_SCHEME) {
                assert(id@ =~= u@.skip(NODE_URI_SCHEME@.len() as int));
                if chars_of(id.as_str()).len() > 0 {
                    return Some(to_ascii_lower(id.as_str()));
                }
            }
        }
        i = i + 1;
    }
    None
}

/// The node that a certificate is for, if it is a node's.
pub fn node_id_from_cert(der: &[u8]) -> (r: Option<String>)
    ensures
        opt_text(r) == cert_node(der@),
{
    match parse_cert(der) {
        Some(f) => node_id_from_fields(&f),
        None => None,
    }
}

pub open spec fn cert_node(der: Seq<u8>) -> Option<Seq<char>> {
    match x509_fields(der) {
        Some(f) => first_node(all_names(f.extensions)),
        None => None,
    }
}

/// The node that the first certificate of a verified chain is for.
pub fn node_id_from_certs(certs: &Vec<Vec<u8>>) -> (r: Option<String>)
    ensures
        opt_text(r) == (if certs@.len() == 0 {
            None
        } else {
            cert_node(certs@[0]@)
        }),
{
    if certs.len() == 0 {
        None
    } else {
        node_id_from_cert(certs[0].as_slice())
    }
}

/// The public key in a certificate, as it stands there.
pub fn spki_public_key(der: &[u8]) -> (r: Option<Vec<u8>>)
    ensures
        match (r, x509_fields(der@)) {
            (Some(k), Some(f)) => k@ == f.public_key,
            (None, None) => true,
            _ => false,
        },
{
    match parse_cert(der) {
        Some(f) => Some(f.public_key),
        None => None,
    }
}

/// Certificates that are trusted.
#[derive(Clone, Debug)]
pub struct TrustRoots(Vec<Vec<u8>>);

impl View for TrustRoots {
    type V = Seq<Seq<u8>>;

    closed spec fn view(&self) -> Seq<Seq<u8>> {
        der_views(self.0@)
    }
}

impl TrustRoots {
    /// Trusts certificates that are given in DER; none is refused.
    pub fn from_certs(certs: Vec<Vec<u8>>) -> (r: Result<Self, String>)
        ensures
            match r {
                Ok(t) => certs@.len() > 0 && t@ == der_views(certs@),
                Err(m) => certs@.len() == 0 && m@ == "CA PEM sin certificados"@,
            },
    {
        if certs.len() == 0 {
            return Err("CA PEM sin certificados".to_owned());
        }
        Ok(TrustRoots(certs))
    }

    /// Trusts the certificates in a PEM text, which holds one at least.
    pub fn from_pem(pem: &[u8]) -> (r: Result<Self, String>)
        ensures
            match (r, pem_certificates(pem@)) {
                (Ok(t), Ok(s)) => s.len() > 0 && t@ == s,
                (Err(m), Ok(s)) => s.len() == 0 && m@ == "CA PEM sin certificados"@,
                (Err(m), Err(t)) => m@ == "CA PEM: "@ + t,
                _ => false,
            },
    {
        match certs_of_pem(pem) {
            Ok(certs) => {
                assert(der_views(certs@).len() == certs@.len());
                TrustRoots::from_certs(certs)
            },
            Err(e) => Err(join2("CA PEM: ", e.as_str())),
        }
    }

    pub fn len(&self) -> (r: usize)
        ensures
            r == self@.len(),
    {
        self.0.len()
    }

    pub fn is_empty(&self) -> (r: bool)
        ensures
            r == (self@.len() == 0),
    {
        self.0.len() == 0
    }
}

/// Algorithms of signatures on certificates.
#[derive(Debug, Clone, Copy, PartialEq, Eq, Structural)]
pub enum SigAlg {
    MlDsa65,
    EcdsaP256,
    EcdsaP384,
    Ed25519,
    RsaPkcs1Sha256,
    RsaPkcs1Sha384,
    RsaPkcs1Sha512,
    RsaPssSha256,
}

/// The algorithms that certificates may be signed with: the post-quantum one, and
/// classical ones only where that is asked for.
pub open spec fn accepted_algs(classical: bool) -> Seq<SigAlg> {
    if classical {
        seq![
            SigAlg::MlDsa65,
            SigAlg::EcdsaP256,
            SigAlg::EcdsaP384,
            SigAlg::Ed25519,
            SigAlg::RsaPkcs1Sha256,
            SigAlg::RsaPkcs1Sha384,
            SigAlg::RsaPkcs1Sha512,
            SigAlg::RsaPssSha256,
        ]
    } else {
        seq![SigAlg::MlDsa65]
    }
}

pub fn verify_algs(classical: bool) -> (r: Vec<SigAlg>)
    ensures
        r@ == accepted_algs(classical),
{
    let mut v: Vec<SigAlg> = Vec::new();
    v.push(SigAlg::MlDsa65);
    if classical {
        v.push(SigAlg::EcdsaP256);
        v.push(SigAlg::EcdsaP384);
        v.push(SigAlg::Ed25519);
        v.push(SigAlg::RsaPkcs1Sha256);
        v.push(SigAlg::RsaPkcs1Sha384);
        v.push(SigAlg::RsaPkcs1Sha512);
        v.push(SigAlg::RsaPssSha256);
    }
    assert(v@ =~= accepted_algs(classical));
    v
}

/// Whether the setting that lets classical certificates in is on.
pub fn classical_certs_allowed(setting: Option<&str>) -> (r: bool)
    ensures
        r == (setting matches Some(v) && v@ == "1"@),
{
    match setting {
        Some(v) => text_eq(v, "1"),
        None => false,
    }
}

/// Why a certificate cannot stand at the end of a chain, if it cannot.
pub uninterp spec fn leaf_error_of(der: Seq<u8>) -> Option<Seq<char>>;

/// `webpki`'s `EndEntityCert::try_from`: the error in its own words.
#[verifier::external_body]
fn leaf_error(der: &[u8]) -> (r: Option<String>)
    ensures
        opt_text(r) == leaf_error_of(der@),
{
    let cert = CertificateDer::from(der);
    let parsed = EndEntityCert::try_from(&cert);
    parsed.err().map(|e| e.to_string())
}

/// Why a certificate cannot be trusted as an authority, if it cannot.
pub uninterp spec fn anchor_error_of(der: Seq<u8>) -> Option<Seq<char>>;

/// `webpki::anchor_from_trusted_cert`: the error in its own words.
#[verifier::external_body]
fn anchor_error(der: &[u8]) -> (r: Option<String>)
    ensures
        opt_text(r) == anchor_error_of(der@),
{
    let cert = CertificateDer::from(der);
    let parsed = anchor_from_trusted_cert(&cert);
    parsed.err().map(|e| e.to_string())
}

/// Why a chain of certificates does not lead to a trusted one, if it does not: its
/// first is signed, through the others, with accepted algorithms, valid at a moment,
/// and made for clients.
pub uninterp spec fn chain_error_of(
    roots: Seq<Seq<u8>>,
    chain: Seq<Seq<u8>>,
    algs: Seq<SigAlg>,
    unix_secs: u64,
) -> Option<Seq<char>>;

/// `verify_for_usage` of `webpki`'s `EndEntityCert`, for client authentication, at a
/// given moment and without revocation lists: the error in its own words. Of the
/// certificates the first `n_roots` are trusted, then comes the chain. Only
/// certificates that can be read are handed over. The algorithms of `webpki` stand in
/// the order of [`SigAlg`].
#[verifier::external_body]
fn chain_error(
    certs: &Vec<Vec<u8>>,
    n_roots: usize,
    algs: &Vec<SigAlg>,
    unix_secs: u64,
) -> (r: Option<String>)
    requires
        n_roots < certs@.len(),
        leaf_error_of(certs@[n_roots as int]@) is None,
        forall|i: int| 0 <= i < n_roots ==> anchor_error_of((#[trigger] certs@[i])@) is None,
    ensures
        opt_text(r) == chain_error_of(
            der_views(certs@).take(n_roots as int),
            der_views(certs@).skip(n_roots as int),
            algs@,
            unix_secs,
        ),
{
    let certs: Vec<_> = certs.iter().map(|c| CertificateDer::from_slice(c)).collect();
    let (roots, chain) = certs.split_at(n_roots);
    let anchors: Vec<_> = roots.iter().map(anchor_from_trusted_cert).map(Result::unwrap).collect();
    let algs: Vec<_> = algs.iter().map(|a| [
        ML_DSA_65, ECDSA_P256_SHA256, ECDSA_P384_SHA384, ED25519, RSA_PKCS1_2048_8192_SHA256,
        RSA_PKCS1_2048_8192_SHA384, RSA_PKCS1_2048_8192_SHA512, RSA_PSS_2048_8192_SHA256_LEGACY_KEY
    ][*a as usize]).collect();
    let leaf = EndEntityCert::try_from(&chain[0]).unwrap();
    leaf.verify_for_usage(&algs, &anchors, &chain[1..],
        UnixTime::since_unix_epoch(Duration::from_secs(unix_secs)), KeyUsage::client_auth(), None, None)
        .err().map(|e| e.to_string())
}

/// The first authority that cannot be trusted, and why.
pub open spec fn first_anchor_error(roots: Seq<Seq<u8>>) -> Option<Seq<char>>
    decreases roots.len(),
{
    if roots.len() == 0 {
        None
    } else {
        match anchor_error_of(roots[0]) {
            Some(e) => Some(e),
            None => first_anchor_error(roots.drop_first()),
        }
    }
}

fn find_anchor_error(roots: &Vec<Vec<u8>>) -> (r: Option<String>)
    ensures
        opt_text(r) == first_anchor_error(der_views(roots@)),
        r is None ==> forall|i: int|
            0 <= i < roots@.len() ==> anchor_error_of((#[trigger] roots@[i])@) is None,
{
    let ghost rv = der_views(roots@);
    let n: usize = roots.len();
    let mut i: usize = 0;
    assert(rv.skip(0) =~= rv);
    while i < n
        invariant
            n == roots@.len(),
            i <= n,
            rv == der_views(roots@),
            first_anchor_error(rv) == first_anchor_error(rv.skip(i as int)),
            forall|j: int| 0 <= j < i ==> anchor_error_of((#[trigger] roots@[j])@) is None,
        decreases n - i,
    {
        assert(rv.skip(i as int)[0] == roots@[i as int]@);
        assert(rv.skip(i as int).drop_first() =~= rv.skip(i + 1));
        if let Some(e) = anchor_error(roots[i].as_slice()) {
            return Some(e);
        }
        i = i + 1;
    }
    None
}

/// What is said of a chain that was looked at: the key of its first certificate if
/// that is of the expected node.
pub open spec fn node_verdict(
    chain_error: Option<Seq<char>>,
    fields: Option<FieldsView>,
    expected: Seq<char>,
) -> Result<Seq<u8>, Seq<char>> {
    match chain_error {
        Some(e) => Err("la cadena no verifica contra la CA de red: "@ + e),
        None => match fields {
            None => Err("el cert no lleva SAN URI dkms://<id>"@),
            Some(f) => match first_node(all_names(f.extensions)) {
                None => Err("el cert no lleva SAN URI dkms://<id>"@),
                Some(id) => if id != ascii_lower(expected) {
                    Err(
                        "el cert es de `"@ + id + "`, no de `"@ + ascii_lower(expected) + "`"@,
                    )
                } else {
                    Ok(f.public_key)
                },
            },
        },
    }
}

pub open spec fn key_result(r: Result<Vec<u8>, String>) -> Result<Seq<u8>, Seq<char>> {
    match r {
        Ok(k) => Ok(k@),
        Err(m) => Err(m@),
    }
}

/// Judges a chain by what was found out about it.
pub fn judge_node(chain_error: Option<String>, fields: Option<CertFields>, expected_id: &str) -> (r: Result<
    Vec<u8>,
    String,
>)
    ensures
        key_result(r) == node_verdict(
            opt_text(chain_error),
            match fields {
                Some(f) => Some(f@),
                None => None,
            },
            expected_id@,
        ),
{
    if let Some(e) = chain_error {
        return Err(join2("la cadena no verifica contra la CA de red: ", e.as_str()));
    }
    let f = match fields {
        Some(f) => f,
        None => {
            return Err("el cert no lleva SAN URI dkms://<id>".to_owned());
        },
    };
    let id = match node_id_from_fields(&f) {
        Some(id) => id,
        None => {
            return Err("el cert no lleva SAN URI dkms://<id>".to_owned());
        },
    };
    let expected = to_ascii_lower(expected_id);
    if !text_eq(id.as_str(), expected.as_str()) {
        let head = join3("el cert es de `", id.as_str(), "`, no de `");
        return Err(join3(head.as_str(), expected.as_str(), "`"));
    }
    Ok(f.public_key)
}

/// What is said of a chain of certificates at a moment.
pub open spec fn chain_verdict(
    chain: Seq<Seq<u8>>,
    roots: Seq<Seq<u8>>,
    expected: Seq<char>,
    classical: bool,
    unix_secs: u64,
) -> Result<Seq<u8>, Seq<char>> {
    if chain.len() == 0 {
        Err("cadena vac\u{ed}a"@)
    } else {
        match leaf_error_of(chain[0]) {
            Some(e) => Err("hoja: "@ + e),
            None => match first_anchor_error(roots) {
                Some(e) => Err("CA: "@ + e),
                None => node_verdict(
                    chain_error_of(roots, chain, accepted_algs(classical), unix_secs),
                    x509_fields(chain[0]),
                    expected,
                ),
            },
        }
    }
}

fn copy_certs(from: &Vec<Vec<u8>>, to: &mut Vec<Vec<u8>>)
    ensures
        der_views(final(to)@) == der_views(old(to)@) + der_views(from@),
        final(to)@.len() == old(to)@.len() + from@.len(),
{
    let ghost before = to@;
    let n: usize = from.len();
    let mut i: usize = 0;
    while i < n
        invariant
            n == from@.len(),
            i <= n,
            to@.len() == before.len() + i,
            forall|j: int| 0 <= j < before.len() ==> (#[trigger] to@[j])@ == before[j]@,
            forall|j: int|
                before.len() <= j < to@.len() ==> (#[trigger] to@[j])@ == from@[j - before.len()]@,
        decreases n - i,
    {
        let c = from[i].clone();
        assert(c@ == from@[i as int]@);
        to.push(c);
        i = i + 1;
    }
    assert(der_views(to@) =~= der_views(before) + der_views(from@));
}

/// Verifies that the first certificate of a chain chains to a trusted one through
/// the others, is valid at a moment, is made for clients and is of the expected
/// node. Gives its public key.
pub fn verify_node_cert(
    chain: &Vec<Vec<u8>>,
    roots: &TrustRoots,
    expected_id: &str,
    classical: bool,
    unix_secs: u64,
) -> (r: Result<Vec<u8>, String>)
    ensures
        key_result(r) == chain_verdict(
            der_views(chain@),
            roots@,
            expected_id@,
            classical,
            unix_secs,
        ),
{
    if chain.len() == 0 {
        return Err("cadena vac\u{ed}a".to_owned());
    }
    let leaf = chain[0].as_slice();
    if let Some(e) = leaf_error(leaf) {
        return Err(join2("hoja: ", e.as_str()));
    }
    if let Some(e) = find_anchor_error(&roots.0) {
        return Err(join2("CA: ", e.as_str()));
    }
    let mut certs: Vec<Vec<u8>> = Vec::new();
    copy_certs(&roots.0, &mut certs);
    let n_roots: usize = certs.len();
    copy_certs(chain, &mut certs);
    proof {
        let all = der_views(certs@);
        assert(all =~= roots@ + der_views(chain@));
        assert(all.take(n_roots as int) =~= roots@);
        assert(all.skip(n_roots as int) =~= der_views(chain@));
        assert(certs@[n_roots as int]@ == all[n_roots as int]);
        assert forall|i: int| 0 <= i < n_roots implies anchor_error_of(
            (#[trigger] certs@[i])@,
        ) is None by {
            assert(certs@[i]@ == all[i]);
            assert(all[i] == roots.0@[i]@);
        }
    }
    let algs = verify_algs(classical);
    let e = chain_error(&certs, n_roots, &algs, unix_secs);
    judge_node(e, parse_cert(leaf), expected_id)
}

/// A key is only given out for the node that was expected, whose certificate chains
/// to a trusted one.
pub proof fn verified_key_is_of_the_expected_node(
    chain: Seq<Seq<u8>>,
    roots: Seq<Seq<u8>>,
    expected: Seq<char>,
    classical: bool,
    unix_secs: u64,
)
    requires
        chain_verdict(chain, roots, expected, classical, unix_secs) is Ok,
    ensures
        chain.len() > 0,
        cert_node(chain[0]) == Some(ascii_lower(expected)),
        chain_error_of(roots, chain, accepted_algs(classical), unix_secs) is None,
        x509_fields(chain[0]) is Some,
        chain_verdict(chain, roots, expected, classical, unix_secs)->Ok_0 == x509_fields(
            chain[0],
        )->0.public_key,
{
}

/// Unless it is asked for, no classical algorithm is accepted.
pub proof fn post_quantum_only_by_default(i: int)
    requires
        0 <= i < accepted_algs(false).len(),
    ensures
        accepted_algs(false)[i] == SigAlg::MlDsa65,
{
}

/// A chain that verifies against sound anchors, under a leaf that names the node, is
/// accepted, and gives the leaf's key.
pub proof fn sound_chain_is_accepted(
    chain: Seq<Seq<u8>>,
    roots: Seq<Seq<u8>>,
    expected: Seq<char>,
    classical: bool,
    unix_secs: u64,
)
    requires
        chain.len() > 0,
        leaf_error_of(chain[0]) is None,
        forall|i: int| 0 <= i < roots.len() ==> anchor_error_of(#[trigger] roots[i]) is None,
        chain_error_of(roots, chain, accepted_algs(classical), unix_secs) is None,
        x509_fields(chain[0]) is Some,
        first_node(all_names(x509_fields(chain[0])->0.extensions)) == Some(ascii_lower(expected)),
    ensures
        chain_verdict(chain, roots, expected, classical, unix_secs) == Ok::<Seq<u8>, Seq<char>>(
            x509_fields(chain[0])->0.public_key,
        ),
{
    lemma_sound_anchors(roots);
}

proof fn lemma_sound_anchors(roots: Seq<Seq<u8>>)
    requires
        forall|i: int| 0 <= i < roots.len() ==> anchor_error_of(#[trigger] roots[i]) is None,
    ensures
        first_anchor_error(roots) is None,
    decreases roots.len(),
{
    if roots.len() > 0 {
        let rest = roots.drop_first();
        assert(anchor_error_of(roots[0]) is None);
        assert forall|i: int| 0 <= i < rest.len() implies anchor_error_of(#[trigger] rest[i]) is None by {
            assert(rest[i] == roots[i + 1]);
        }
        lemma_sound_anchors(rest);
    }
}

/// One bad anchor is enough to refuse every chain.
pub proof fn bad_anchor_refuses_every_chain(
    chain: Seq<Seq<u8>>,
    roots: Seq<Seq<u8>>,
    expected: Seq<char>,
    classical: bool,
    unix_secs: u64,
    i: int,
)
    requires
        0 <= i < roots.len(),
        anchor_error_of(roots[i]) is Some,
    ensures
        chain_verdict(chain, roots, expected, classical, unix_secs) is Err,
{
    lemma_bad_anchor(roots, i);
}

proof fn lemma_bad_anchor(roots: Seq<Seq<u8>>, i: int)
    requires
        0 <= i < roots.len(),
        anchor_error_of(roots[i]) is Some,
    ensures
        first_anchor_error(roots) is Some,
    decreases roots.len(),
{
    if i > 0 {
        assert(roots.drop_first()[i - 1] == roots[i]);
        lemma_bad_anchor(roots.drop_first(), i - 1);
    }
}

/// A node is named by a URI of its scheme, in any case, and by nothing else; the first
/// of several counts.
pub proof fn first_node_uri_counts(names: Seq<AltNameView>, i: int, id: Seq<char>)
    requires
        0 <= i < names.len(),
        names[i] == AltNameView::Uri("dkms://"@ + id),
        id.len() > 0,
        forall|j: int|
            0 <= j < i ==> match #[trigger] names[j] {
                AltNameView::Uri(u) => !starts_with(u, "dkms://"@) || u.len() <= "dkms://"@.len(),
                _ => true,
            },
    ensures
        first_node(names) == Some(ascii_lower(id)),
    decreases names.len(),
{
    if i == 0 {
        let u = "dkms://"@ + id;
        assert(u.subrange(0, "dkms://"@.len() as int) =~= "dkms://"@);
        assert(u.skip("dkms://"@.len() as int) =~= id);
    } else {
        let rest = names.drop_first();
        assert(node_named(names[0]) is None);
        assert(rest[i - 1] == names[i]);
        assert forall|j: int| 0 <= j < i - 1 implies match #[trigger] rest[j] {
            AltNameView::Uri(u) => !starts_with(u, "dkms://"@) || u.len() <= "dkms://"@.len(),
            _ => true,
        } by {
            assert(rest[j] == names[j + 1]);
            let n = names[j + 1];
        }
        first_node_uri_counts(rest, i - 1, id);
    }
}

proof fn lemma_first_uri(names: Seq<AltNameView>, i: int)
    ensures
        0 <= i < names.len() && names[i] is Uri && (forall|j: int|
            0 <= j < i ==> !((#[trigger] names[j]) is Uri)) ==> first_uri(names) == Some(
            names[i]->Uri_0,
        ),
        (forall|j: int| 0 <= j < names.len() ==> !((#[trigger] names[j]) is Uri)) ==> first_uri(
            names,
        ) is None,
    decreases names.len(),
{
    if names.len() > 0 {
        let rest = names.drop_first();
        lemma_first_uri(rest, i - 1);
        assert forall|j: int| 0 <= j < rest.len() implies #[trigger] rest[j] == names[j + 1] by {}
        if i > 0 && i < names.len() {
            assert(rest[i - 1] == names[i]);
        }
    }
}

proof fn lemma_first_dns(names: Seq<AltNameView>, i: int)
    ensures
        0 <= i < names.len() && names[i] is Dns && (forall|j: int|
            0 <= j < i ==> !((#[trigger] names[j]) is Dns)) ==> first_dns(names) == Some(
            names[i]->Dns_0,
        ),
        (forall|j: int| 0 <= j < names.len() ==> !((#[trigger] names[j]) is Dns)) ==> first_dns(
            names,
        ) is None,
    decreases names.len(),
{
    if names.len() > 0 {
        let rest = names.drop_first();
        lemma_first_dns(rest, i - 1);
        assert forall|j: int| 0 <= j < rest.len() implies #[trigger] rest[j] == names[j + 1] by {}
        if i > 0 && i < names.len() {
            assert(rest[i - 1] == names[i]);
        }
    }
}

/// A certificate is known by its first URI, wherever host names stand; without one by
/// its first host name; without either by its first common name.
pub proof fn uris_go_before_hosts_before_common_names(f: FieldsView, i: int)
    ensures
        ({
            let names = all_names(f.extensions);
            let no_uri = forall|j: int| 0 <= j < names.len() ==> !((#[trigger] names[j]) is Uri);
            let no_dns = forall|j: int| 0 <= j < names.len() ==> !((#[trigger] names[j]) is Dns);
            &&& 0 <= i < names.len() && names[i] is Uri && (forall|j: int|
                0 <= j < i ==> !((#[trigger] names[j]) is Uri)) ==> identifier_of(f) == Some(
                names[i]->Uri_0,
            )
            &&& no_uri && 0 <= i < names.len() && names[i] is Dns && (forall|j: int|
                0 <= j < i ==> !((#[trigger] names[j]) is Dns)) ==> identifier_of(f) == Some(
                names[i]->Dns_0,
            )
            &&& no_uri && no_dns && f.common_names.len() > 0 ==> identifier_of(f)
                == f.common_names[0]
            &&& no_uri && no_dns && f.common_names.len() == 0 ==> identifier_of(f) is None
        }),
{
    lemma_first_uri(all_names(f.extensions), i);
    lemma_first_dns(all_names(f.extensions), i);
}

/// Where classical algorithms are asked for all of them are accepted, behind the
/// post-quantum one.
pub proof fn classical_algorithms_come_after(alg: SigAlg)
    ensures
        accepted_algs(true).contains(alg),
        accepted_algs(true)[0] == SigAlg::MlDsa65,
        accepted_algs(false) == seq![SigAlg::MlDsa65],
{
    let all = accepted_algs(true);
    let i = match alg {
        SigAlg::MlDsa65 => 0int,
        SigAlg::EcdsaP256 => 1,
        SigAlg::EcdsaP384 => 2,
        SigAlg::Ed25519 => 3,
        SigAlg::RsaPkcs1Sha256 => 4,
        SigAlg::RsaPkcs1Sha384 => 5,
        SigAlg::RsaPkcs1Sha512 => 6,
        SigAlg::RsaPssSha256 => 7,
    };
    assert(all[i] == alg);
}

/// The alternative names of a certificate are those of its extensions of that kind, in
/// their order.
pub proof fn names_of_all_extensions_count(
    a: Seq<Option<Seq<AltNameView>>>,
    b: Seq<Option<Seq<AltNameView>>>,
    names: Seq<AltNameView>,
)
    ensures
        all_names(a + b) == all_names(a) + all_names(b),
        all_names(seq![Some(names)]) == names,
        all_names(seq![None::<Seq<AltNameView>>]) == Seq::<AltNameView>::empty(),
    decreases b.len(),
{
    if b.len() == 0 {
        assert(a + b =~= a);
        assert(all_names(a) + all_names(b) =~= all_names(a));
    } else {
        assert((a + b).drop_last() =~= a + b.drop_last());
        names_of_all_extensions_count(a, b.drop_last(), names);
        assert(all_names(a + b) =~= all_names(a) + all_names(b));
    }
    let some = seq![Some(names)];
    let none = seq![None::<Seq<AltNameView>>];
    assert(some.drop_last() =~= Seq::empty());
    assert(none.drop_last() =~= Seq::empty());
    reveal_with_fuel(all_names, 2);
    assert(all_names(some) =~= names);
    assert(all_names(none) =~= Seq::empty());
}

} // verus!
