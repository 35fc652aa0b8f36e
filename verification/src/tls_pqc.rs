//! Post-quantum TLS: which signatures and key exchanges there are, and the check that
//! a node makes of itself before it serves anyone.
use crate::cert_identity::{accepted_algs, verify_algs, SigAlg};
use crate::pem::{
    certs_of_pem, der_views, key_of_pem, pem_certificates, pem_key, PemFaultView, PemKey,
    PemKeyView,
};
use crate::text::{join2, join3};
use rustls::NamedGroup;
use vstd::prelude::*;
use vstd::string::*;

verus! {

/// The only key exchange that is negotiated: X25519 together with ML-KEM-768.
pub const REQUIRED_KX_GROUP: u16 = 0x11EC;

/// The signature scheme ML-DSA-65.
pub const ML_DSA_65_SCHEME: u16 = 0x0905;

/// Rounds after which a handshake that is not done is given up.
pub const HANDSHAKE_ROUNDS: u32 = 30;

/// The number that TLS gives a signature scheme.
pub open spec fn scheme_of(alg: SigAlg) -> u16 {
    match alg {
        SigAlg::MlDsa65 => ML_DSA_65_SCHEME,
        SigAlg::EcdsaP256 => 0x0403,
        SigAlg::EcdsaP384 => 0x0503,
        SigAlg::Ed25519 => 0x0807,
        SigAlg::RsaPkcs1Sha256 => 0x0401,
        SigAlg::RsaPkcs1Sha384 => 0x0501,
        SigAlg::RsaPkcs1Sha512 => 0x0601,
        SigAlg::RsaPssSha256 => 0x0804,
    }
}

/// The schemes that peers may sign with, in the order in which they are offered.
pub open spec fn accepted_schemes(classical: bool) -> Seq<u16> {
    accepted_algs(classical).map_values(|a: SigAlg| scheme_of(a))
}

pub fn scheme(alg: SigAlg) -> (r: u16)
    ensures
        r == scheme_of(alg),
{
    match alg {
        SigAlg::MlDsa65 => ML_DSA_65_SCHEME,
        SigAlg::EcdsaP256 => 0x0403,
        SigAlg::EcdsaP384 => 0x0503,
        SigAlg::Ed25519 => 0x0807,
        SigAlg::RsaPkcs1Sha256 => 0x0401,
        SigAlg::RsaPkcs1Sha384 => 0x0501,
        SigAlg::RsaPkcs1Sha512 => 0x0601,
        SigAlg::RsaPssSha256 => 0x0804,
    }
}

pub fn verify_schemes(classical: bool) -> (r: Vec<u16>)
    ensures
        r@ == accepted_schemes(classical),
{
    let algs = verify_algs(classical);
    let n: usize = algs.len();
    let mut out: Vec<u16> = Vec::new();
    let mut i: usize = 0;
    while i < n
        invariant
            n == algs@.len(),
            i <= n,
            out@.len() == i,
            forall|j: int| 0 <= j < i ==> #[trigger] out@[j] == scheme_of(algs@[j]),
        decreases n - i,
    {
        out.push(scheme(algs[i]));
        i = i + 1;
    }
    assert(out@ =~= accepted_schemes(classical));
    out
}

/// The key exchanges that are offered: the required one, and no other.
pub fn kx_groups() -> (r: Vec<u16>)
    ensures
        r@ == seq![REQUIRED_KX_GROUP],
{
    let mut v: Vec<u16> = Vec::new();
    v.push(REQUIRED_KX_GROUP);
    assert(v@ =~= seq![REQUIRED_KX_GROUP]);
    v
}

/// By default a peer can prove who it is with ML-DSA-65 alone, and ML-DSA-65 is always
/// among the schemes.
pub proof fn only_ml_dsa_by_default(classical: bool)
    ensures
        accepted_schemes(false) == seq![ML_DSA_65_SCHEME],
        accepted_schemes(classical).contains(ML_DSA_65_SCHEME),
{
    assert(accepted_schemes(false) =~= seq![ML_DSA_65_SCHEME]);
    assert(accepted_schemes(classical)[0] == ML_DSA_65_SCHEME);
}

/// What a node proves its name with.
pub struct NodeIdentity {
    pub certs: Vec<Vec<u8>>,
    pub key: PemKey,
}

#[verifier::ext_equal]
pub struct IdentityParts {
    pub certs: Seq<Seq<u8>>,
    pub key: PemKeyView,
}

impl View for NodeIdentity {
    type V = IdentityParts;

    open spec fn view(&self) -> IdentityParts {
        IdentityParts { certs: der_views(self.certs@), key: self.key@ }
    }
}

/// What the certificates and the key that were read make up, or what is wrong.
pub open spec fn identity_made(
    certs: Result<Seq<Seq<u8>>, Seq<char>>,
    key: Result<PemKeyView, PemFaultView>,
) -> Result<IdentityParts, Seq<char>> {
    match certs {
        Err(t) => Err("cert PEM: "@ + t),
        Ok(c) => if c.len() == 0 {
            Err("cert PEM sin certificados"@)
        } else {
            match key {
                Err(f) => Err("key PEM: "@ + f.text),
                Ok(k) => Ok(IdentityParts { certs: c, key: k }),
            }
        },
    }
}

/// The identity of a node from its certificate chain and its key, both in PEM.
pub fn self_check_identity(cert_pem: &[u8], key_pem: &[u8]) -> (r: Result<NodeIdentity, String>)
    ensures
        match (r, identity_made(pem_certificates(cert_pem@), pem_key(key_pem@))) {
            (Ok(id), Ok(v)) => id@ == v,
            (Err(e), Err(t)) => e@ == t,
            _ => false,
        },
{
    let certs = match certs_of_pem(cert_pem) {
        Ok(c) => c,
        Err(e) => {
            return Err(join2("cert PEM: ", e.as_str()));
        },
    };
    assert(der_views(certs@).len() == certs@.len());
    if certs.len() == 0 {
        return Err("cert PEM sin certificados".to_owned());
    }
    match key_of_pem(key_pem) {
        Ok(key) => Ok(NodeIdentity { certs, key }),
        Err(e) => Err(join2("key PEM: ", e.text.as_str())),
    }
}

/// Whether a handshake between two ends of one process goes on after a round: not
/// once both ends are done, not when neither had anything to say, and not for more
/// rounds than there may be. Rounds are counted from zero.
pub fn handshake_goes_on(
    round: u32,
    progressed: bool,
    client_busy: bool,
    server_busy: bool,
) -> (r: bool)
    ensures
        r == (round + 1 < HANDSHAKE_ROUNDS && progressed && (client_busy || server_busy)),
{
    round < HANDSHAKE_ROUNDS - 1 && progressed && (client_busy || server_busy)
}

/// What came of a handshake that is over: the key exchange that was negotiated.
pub fn handshake_outcome(client_busy: bool, server_busy: bool, group: Option<u16>) -> (r: Result<
    u16,
    String,
>)
    ensures
        match r {
            Ok(g) => !client_busy && !server_busy && group == Some(g),
            Err(m) => if client_busy || server_busy {
                m@ == "el handshake no lleg\u{f3} a completarse"@
            } else {
                group is None && m@ == "sin grupo de intercambio negociado"@
            },
        },
{
    if client_busy || server_busy {
        return Err("el handshake no lleg\u{f3} a completarse".to_owned());
    }
    match group {
        Some(g) => Ok(g),
        None => Err("sin grupo de intercambio negociado".to_owned()),
    }
}

/// How a key exchange is called.
pub uninterp spec fn group_name(group: u16) -> Seq<char>;

/// The `Debug` form of `rustls::NamedGroup`, of the group of this number: the group's
/// name, or its number where it has none.
#[verifier::external_body]
fn name_of_group(group: u16) -> (r: String)
    ensures
        r@ == group_name(group),
{
    format!("{:?}", NamedGroup::from(group))
}

/// Holds the key exchange that a node negotiated with itself against the required
/// one.
pub fn self_check_verdict(kx: u16) -> (r: Result<(), String>)
    ensures
        match r {
            Ok(_) => kx == REQUIRED_KX_GROUP,
            Err(m) => kx != REQUIRED_KX_GROUP && m@ == "el self-check negoci\u{f3} "@ + group_name(kx)
                + " en vez de "@ + group_name(REQUIRED_KX_GROUP)
                + ": este binario no es post-cu\u{e1}ntico en el intercambio de claves"@,
        },
{
    if kx == REQUIRED_KX_GROUP {
        return Ok(());
    }
    let head = join3("el self-check negoci\u{f3} ", name_of_group(kx).as_str(), " en vez de ");
    Err(
        join3(
            head.as_str(),
            name_of_group(REQUIRED_KX_GROUP).as_str(),
            ": este binario no es post-cu\u{e1}ntico en el intercambio de claves",
        ),
    )
}

/// The key exchange that a node negotiates with itself is the post-quantum one, or the
/// check fails: it passes only after a handshake that both ends finished.
pub open spec fn self_check_passes(
    client_busy: bool,
    server_busy: bool,
    group: Option<u16>,
) -> bool {
    !client_busy && !server_busy && group == Some(REQUIRED_KX_GROUP)
}

/// The end of the check: what came of the handshake, and whether that is enough.
pub fn self_check_hybrid_kx(client_busy: bool, server_busy: bool, group: Option<u16>) -> (r: Result<
    (),
    String,
>)
    ensures
        r is Ok == self_check_passes(client_busy, server_busy, group),
        r matches Err(m) ==> m@ == (if client_busy || server_busy {
            "el handshake no lleg\u{f3} a completarse"@
        } else if group is None {
            "sin grupo de intercambio negociado"@
        } else {
            "el self-check negoci\u{f3} "@ + group_name(group->0) + " en vez de "@ + group_name(
                REQUIRED_KX_GROUP,
            ) + ": este binario no es post-cu\u{e1}ntico en el intercambio de claves"@
        }),
{
    match handshake_outcome(client_busy, server_busy, group) {
        Ok(kx) => self_check_verdict(kx),
        Err(e) => Err(e),
    }
}

/// What a provider of cryptography verifies and negotiates.
pub struct ProviderFacts {
    pub schemes: Vec<u16>,
    pub groups: Vec<u16>,
}

/// Whether a provider is as good as this node's own: it verifies ML-DSA-65, and
/// negotiates the same key exchanges in the same order.
pub open spec fn equivalent(schemes: Seq<u16>, groups: Seq<u16>, ours: Seq<u16>) -> bool {
    schemes.contains(ML_DSA_65_SCHEME) && groups == ours
}

fn contains_scheme(v: &Vec<u16>, x: u16) -> (r: bool)
    ensures
        r == v@.contains(x),
{
    let mut i: usize = 0;
    while i < v.len()
        invariant
            i <= v@.len(),
            forall|j: int| 0 <= j < i ==> v@[j] != x,
        decreases v@.len() - i,
    {
        if v[i] == x {
            return true;
        }
        i = i + 1;
    }
    false
}

fn same_groups(a: &Vec<u16>, b: &Vec<u16>) -> (r: bool)
    ensures
        r == (a@ == b@),
{
    if a.len() != b.len() {
        return false;
    }
    let mut i: usize = 0;
    while i < a.len()
        invariant
            a@.len() == b@.len(),
            i <= a@.len(),
            forall|j: int| 0 <= j < i ==> a@[j] == b@[j],
        decreases a@.len() - i,
    {
        if a[i] != b[i] {
            return false;
        }
        i = i + 1;
    }
    assert(a@ =~= b@);
    true
}

pub fn provider_is_ours(schemes: &Vec<u16>, groups: &Vec<u16>, ours: &Vec<u16>) -> (r: bool)
    ensures
        r == equivalent(schemes@, groups@, ours@),
{
    contains_scheme(schemes, ML_DSA_65_SCHEME) && same_groups(groups, ours)
}

pub open spec fn flag_text(b: bool) -> Seq<char> {
    if b {
        "true"@
    } else {
        "false"@
    }
}

fn flag(b: bool) -> (r: &'static str)
    ensures
        r@ == flag_text(b),
{
    if b {
        "true"
    } else {
        "false"
    }
}

/// Whether the process may go on: its provider was installed now, or the one that is
/// in its place is as good. `current` is the provider of the process.
pub fn ensure_process_default(installed: bool, current: Option<&ProviderFacts>, ours: &Vec<u16>) -> (r:
    Result<(), String>)
    ensures
        r is Ok == (installed || (current matches Some(p) && equivalent(
            p.schemes@,
            p.groups@,
            ours@,
        ))),
        r matches Err(m) ==> m@ == (match current {
            None => "no se pudo instalar el provider PQC y el proceso no tiene ninguno"@,
            Some(p) => "el crypto provider default del proceso no es el PQC (verifica ML-DSA-65: "@
                + flag_text(p.schemes@.contains(ML_DSA_65_SCHEME)) + ", mismos grupos KX: "@
                + flag_text(p.groups@ == ours@)
                + "); algo instal\u{f3} otro provider antes que tls_pqc"@,
        }),
{
    if installed {
        return Ok(());
    }
    let p = match current {
        Some(p) => p,
        None => {
            return Err(
                "no se pudo instalar el provider PQC y el proceso no tiene ninguno".to_owned(),
            );
        },
    };
    if provider_is_ours(&p.schemes, &p.groups, ours) {
        return Ok(());
    }
    let head = join3(
        "el crypto provider default del proceso no es el PQC (verifica ML-DSA-65: ",
        flag(contains_scheme(&p.schemes, ML_DSA_65_SCHEME)),
        ", mismos grupos KX: ",
    );
    Err(
        join3(
            head.as_str(),
            flag(same_groups(&p.groups, ours)),
            "); algo instal\u{f3} otro provider antes que tls_pqc",
        ),
    )
}

/// A provider that this node makes is as good as its own, so that a second attempt to
/// install it is no failure.
pub proof fn own_provider_is_recognised(classical: bool)
    ensures
        equivalent(accepted_schemes(classical), seq![REQUIRED_KX_GROUP], seq![REQUIRED_KX_GROUP]),
{
    only_ml_dsa_by_default(classical);
}

/// An identity is made of at least one certificate and a key, in the form in which
/// they were read, and of nothing less.
pub proof fn identity_needs_certificate_and_key(
    certs: Result<Seq<Seq<u8>>, Seq<char>>,
    key: Result<PemKeyView, PemFaultView>,
)
    ensures
        identity_made(certs, key) is Ok <==> certs is Ok && certs->Ok_0.len() > 0 && key is Ok,
        identity_made(certs, key) matches Ok(p) ==> p.certs == certs->Ok_0 && p.key == key->Ok_0,
{
}

/// No two algorithms share a scheme.
pub proof fn schemes_tell_algorithms_apart(a: SigAlg, b: SigAlg)
    requires
        scheme_of(a) == scheme_of(b),
    ensures
        a == b,
{
}

/// The check of a node against itself passes only with the hybrid key exchange, after
/// a handshake that both ends finished.
pub proof fn self_check_needs_the_hybrid_exchange(client_busy: bool, server_busy: bool, group: u16)
    ensures
        self_check_passes(client_busy, server_busy, Some(group)) <==> !client_busy && !server_busy
            && group == REQUIRED_KX_GROUP,
        !self_check_passes(client_busy, server_busy, None),
{
}

} // verus!
