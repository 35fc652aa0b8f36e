//! Who is at the other end of a connection.
//!
//! The identity comes from the client's certificate. A proxy in front of the node
//! that ends the connection hands the certificate on in a header.
use crate::cert_identity::{extract_san_identifier, identifier_of, x509_fields};
use crate::codec::{base64_char, base64_text};
use crate::config::opt_text;
use crate::ids::{NodeId, SaeId};
use crate::southbound::{last_position, split_last};
use crate::text::{
    chars_at, chars_of, is_white_space, occurs_at, starts_with, strip_prefix, white_space,
};
use vstd::prelude::*;
use vstd::string::*;
use vstd::utf8::*;

verus! {

/// The header in which a proxy hands a certificate on.
pub const SSL_CLIENT_CERT_HEADER: &'static str = "ssl-client-cert";

/// The value of a hexadecimal digit.
pub open spec fn hex_value(b: u8) -> Option<u8> {
    if 0x30 <= b <= 0x39 {
        Some((b - 0x30) as u8)
    } else if 0x61 <= b <= 0x66 {
        Some((b - 0x57) as u8)
    } else if 0x41 <= b <= 0x46 {
        Some((b - 0x37) as u8)
    } else {
        None
    }
}

pub fn hex_val(b: u8) -> (r: Option<u8>)
    ensures
        r == hex_value(b),
{
    if 0x30 <= b && b <= 0x39 {
        Some(b - 0x30)
    } else if 0x61 <= b && b <= 0x66 {
        Some(b - 0x57)
    } else if 0x41 <= b && b <= 0x46 {
        Some(b - 0x37)
    } else {
        None
    }
}

/// Bytes with each percent sign and two hexadecimal digits replaced by the byte
/// that they stand for.
pub open spec fn percent_decoded(b: Seq<u8>) -> Seq<u8>
    decreases b.len(),
{
    if b.len() == 0 {
        Seq::empty()
    } else if b[0] == 0x25 && b.len() > 2 && hex_value(b[1]) is Some && hex_value(b[2]) is Some {
        seq![(hex_value(b[1])->0 * 16 + hex_value(b[2])->0) as u8] + percent_decoded(b.skip(3))
    } else {
        seq![b[0]] + percent_decoded(b.skip(1))
    }
}

/// The text that bytes are read as.
pub uninterp spec fn lossy_text(b: Seq<u8>) -> Seq<char>;

/// `String::from_utf8_lossy`: bytes that are UTF-8 are read as what they are, and
/// what is not UTF-8 is replaced.
#[verifier::external_body]
fn from_utf8_lossy(b: &[u8]) -> (r: String)
    ensures
        r@ == lossy_text(b@),
        forall|t: Seq<char>| #[trigger] encode_utf8(t) == b@ ==> r@ == t,
{
    String::from_utf8_lossy(b).into_owned()
}

/// Reads the value of the header in which a proxy hands a certificate on.
pub fn decode_proxy_header_value(raw: &str) -> (r: String)
    ensures
        r@ == lossy_text(percent_decoded(encode_utf8(raw@))),
        forall|t: Seq<char>| #[trigger]
            encode_utf8(t) == percent_decoded(encode_utf8(raw@)) ==> r@ == t,
{
    let bytes = raw.as_bytes();
    let n: usize = bytes.len();
    let mut out: Vec<u8> = Vec::new();
    let mut i: usize = 0;
    let ghost all = percent_decoded(bytes@);
    assert(bytes@.skip(0) =~= bytes@);
    assert(out@ + all =~= all);
    while i < n
        invariant
            n == bytes@.len(),
            i <= n,
            all == percent_decoded(bytes@),
            out@ + percent_decoded(bytes@.skip(i as int)) == all,
        decreases n - i,
    {
        let ghost rest = bytes@.skip(i as int);
        let ghost out0 = out@;
        let b: u8 = bytes[i];
        assert(rest[0] == b);
        if b == 0x25 && n - i > 2 {
            assert(rest[1] == bytes@[i + 1] && rest[2] == bytes@[i + 2]);
            let hi = hex_val(bytes[i + 1]);
            let lo = hex_val(bytes[i + 2]);
            if let (Some(h), Some(l)) = (hi, lo) {
                let v: u8 = h * 16 + l;
                out.push(v);
                proof {
                    assert(rest.skip(3) =~= bytes@.skip(i + 3));
                    assert(out0 + (seq![v] + percent_decoded(bytes@.skip(i + 3))) =~= out@
                        + percent_decoded(bytes@.skip(i + 3)));
                }
                i = i + 3;
                continue ;
            }
        }
        out.push(b);
        proof {
            assert(rest.skip(1) =~= bytes@.skip(i + 1));
            assert(out0 + (seq![b] + percent_decoded(bytes@.skip(i + 1))) =~= out@
                + percent_decoded(bytes@.skip(i + 1)));
        }
        i = i + 1;
    }
    assert(bytes@.skip(i as int) =~= Seq::<u8>::empty());
    assert(out@ + Seq::<u8>::empty() =~= out@);
    from_utf8_lossy(out.as_slice())
}

/// Position of the first `p` in `s` from `from` on.
pub open spec fn find_from(s: Seq<char>, p: Seq<char>, from: int) -> Option<int>
    decreases s.len() + 1 - from,
{
    if from < 0 || from + p.len() > s.len() {
        None
    } else if occurs_at(s, p, from) {
        Some(from)
    } else {
        find_from(s, p, from + 1)
    }
}

fn find_text(s: &Vec<char>, p: &Vec<char>, from: usize) -> (r: Option<usize>)
    requires
        from <= s@.len(),
    ensures
        match r {
            Some(i) => find_from(s@, p@, from as int) == Some(i as int) && from <= i && i + p@.len()
                <= s@.len(),
            None => find_from(s@, p@, from as int) is None,
        },
{
    let n: usize = s.len();
    let m: usize = p.len();
    if m > n {
        return None;
    }
    let mut i: usize = from;
    while i <= n - m
        invariant
            n == s@.len(),
            m == p@.len(),
            m <= n,
            from <= i <= n,
            find_from(s@, p@, from as int) == find_from(s@, p@, i as int),
        decreases n - i,
    {
        if chars_at(s, p, i) {
            return Some(i);
        }
        if i == n {
            assert(find_from(s@, p@, i + 1) is None);
            return None;
        }
        i = i + 1;
    }
    None
}

/// `s` without white space.
pub open spec fn compact(s: Seq<char>) -> Seq<char>
    decreases s.len(),
{
    if s.len() == 0 {
        Seq::empty()
    } else if white_space(s.last()) {
        compact(s.drop_last())
    } else {
        compact(s.drop_last()).push(s.last())
    }
}

/// The number that a character of the base64 alphabet stands for.
pub open spec fn sextet(c: u8) -> Option<u8> {
    if 0x41 <= c <= 0x5A {
        Some((c - 0x41) as u8)
    } else if 0x61 <= c <= 0x7A {
        Some((c - 0x47) as u8)
    } else if 0x30 <= c <= 0x39 {
        Some((c + 4) as u8)
    } else if c == 0x2B {
        Some(62)
    } else if c == 0x2F {
        Some(63)
    } else {
        None
    }
}

fn sextet_of(c: u8) -> (r: Option<u8>)
    ensures
        r == sextet(c),
        r matches Some(v) ==> v < 64,
{
    if 0x41 <= c && c <= 0x5A {
        Some(c - 0x41)
    } else if 0x61 <= c && c <= 0x7A {
        Some(c - 0x47)
    } else if 0x30 <= c && c <= 0x39 {
        Some(c + 4)
    } else if c == 0x2B {
        Some(62)
    } else if c == 0x2F {
        Some(63)
    } else {
        None
    }
}

/// The bytes of four characters of base64. A `=` in the third or the fourth place
/// leaves a byte out, and behind one in the third place nothing is looked at.
pub open spec fn quartet(a: u8, b: u8, c: u8, d: u8) -> Option<Seq<u8>> {
    match (sextet(a), sextet(b)) {
        (Some(x), Some(y)) => {
            let first = (x * 4 + y / 16) as u8;
            if c == 0x3D {
                Some(seq![first])
            } else {
                match sextet(c) {
                    Some(z) => {
                        let second = (y % 16 * 16 + z / 4) as u8;
                        if d == 0x3D {
                            Some(seq![first, second])
                        } else {
                            match sextet(d) {
                                Some(w) => Some(seq![first, second, (z % 4 * 64 + w) as u8]),
                                None => None,
                            }
                        }
                    },
                    None => None,
                }
            }
        },
        _ => None,
    }
}

/// The bytes of a text of base64, four characters at a time.
pub open spec fn quartets(s: Seq<u8>) -> Option<Seq<u8>>
    decreases s.len(),
{
    if s.len() == 0 {
        Some(Seq::empty())
    } else if s.len() < 4 {
        None
    } else {
        match (quartet(s[0], s[1], s[2], s[3]), quartets(s.skip(4))) {
            (Some(q), Some(rest)) => Some(q + rest),
            _ => None,
        }
    }
}

proof fn lemma_quartets_short(s: Seq<u8>)
    requires
        s.len() % 4 != 0,
    ensures
        quartets(s) is None,
    decreases s.len(),
{
    if s.len() >= 4 {
        lemma_quartets_short(s.skip(4));
    }
}

fn quartet_of(a: u8, b: u8, c: u8, d: u8, out: &mut Vec<u8>) -> (r: bool)
    ensures
        match quartet(a, b, c, d) {
            Some(q) => r && final(out)@ == old(out)@ + q,
            None => !r,
        },
{
    let ghost before = out@;
    let (x, y) = match (sextet_of(a), sextet_of(b)) {
        (Some(x), Some(y)) => (x, y),
        _ => {
            return false;
        },
    };
    out.push(x * 4 + y / 16);
    if c == 0x3D {
        assert(out@ =~= before + quartet(a, b, c, d)->0);
        return true;
    }
    let z: u8 = match sextet_of(c) {
        Some(z) => z,
        None => {
            return false;
        },
    };
    out.push(y % 16 * 16 + z / 4);
    if d == 0x3D {
        assert(out@ =~= before + quartet(a, b, c, d)->0);
        return true;
    }
    match sextet_of(d) {
        Some(w) => {
            out.push(z % 4 * 64 + w);
            assert(out@ =~= before + quartet(a, b, c, d)->0);
            true
        },
        None => false,
    }
}

/// The bytes of a text of base64.
pub fn base64_decode(s: &str) -> (r: Result<Vec<u8>, ()>)
    ensures
        match r {
            Ok(v) => quartets(encode_utf8(s@)) == Some(v@),
            Err(_) => quartets(encode_utf8(s@)) is None,
        },
{
    let b = s.as_bytes();
    let n: usize = b.len();
    if n % 4 != 0 {
        proof {
            lemma_quartets_short(b@);
        }
        return Err(());
    }
    let mut out: Vec<u8> = Vec::new();
    let mut i: usize = 0;
    let ghost all = quartets(b@);
    assert(b@.skip(0) =~= b@);
    while i < n
        invariant
            n == b@.len(),
            n % 4 == 0,
            i % 4 == 0,
            i <= n,
            b@ == encode_utf8(s@),
            all == quartets(b@),
            match (all, quartets(b@.skip(i as int))) {
                (Some(v), Some(rest)) => out@ + rest == v,
                (None, None) => true,
                (Some(_), None) => false,
                (None, Some(_)) => false,
            },
        decreases n - i,
    {
        let ghost rest = b@.skip(i as int);
        let ghost out0 = out@;
        assert(rest.len() >= 4);
        assert(rest[0] == b@[i as int] && rest[1] == b@[i + 1] && rest[2] == b@[i + 2] && rest[3]
            == b@[i + 3]);
        assert(rest.skip(4) =~= b@.skip(i + 4));
        if !quartet_of(b[i], b[i + 1], b[i + 2], b[i + 3], &mut out) {
            return Err(());
        }
        proof {
            let q = quartet(rest[0], rest[1], rest[2], rest[3])->0;
            match quartets(b@.skip(i + 4)) {
                Some(tail) => {
                    assert(out0 + (q + tail) =~= out@ + tail);
                },
                None => {},
            }
        }
        i = i + 4;
    }
    assert(b@.skip(i as int) =~= Seq::<u8>::empty());
    assert(out@ + Seq::<u8>::empty() =~= out@);
    Ok(out)
}

/// What stands between the first line that begins a certificate and the next that
/// ends one, without white space.
pub open spec fn pem_body(pem: Seq<char>) -> Option<Seq<char>> {
    match find_from(pem, "-----BEGIN CERTIFICATE-----"@, 0) {
        None => None,
        Some(b) => {
            let start = b + "-----BEGIN CERTIFICATE-----"@.len();
            match find_from(pem, "-----END CERTIFICATE-----"@, start) {
                None => None,
                Some(e) => Some(compact(pem.subrange(start, e))),
            }
        },
    }
}

/// The first certificate of a PEM text in DER.
pub open spec fn pem_der(pem: Seq<char>) -> Option<Seq<u8>> {
    match pem_body(pem) {
        Some(body) => quartets(encode_utf8(body)),
        None => None,
    }
}

pub fn pem_to_der(pem: &str) -> (r: Option<Vec<u8>>)
    ensures
        match r {
            Some(v) => pem_der(pem@) == Some(v@),
            None => pem_der(pem@) is None,
        },
{
    let s = chars_of(pem);
    let begin = chars_of("-----BEGIN CERTIFICATE-----");
    let end = chars_of("-----END CERTIFICATE-----");
    let n: usize = s.len();
    let start: usize = match find_text(&s, &begin, 0) {
        Some(b) => b + begin.len(),
        None => {
            return None;
        },
    };
    let stop: usize = match find_text(&s, &end, start) {
        Some(e) => e,
        None => {
            return None;
        },
    };
    let ghost inner = s@.subrange(start as int, stop as int);
    let mut body = String::new();
    let mut i: usize = start;
    assert(body@ =~= compact(inner.take(0)));
    while i < stop
        invariant
            start <= i <= stop,
            stop <= s@.len(),
            inner == s@.subrange(start as int, stop as int),
            body@ == compact(inner.take(i - start)),
        decreases stop - i,
    {
        let c: char = s[i];
        assert(inner.take(i - start + 1).drop_last() =~= inner.take(i - start));
        assert(inner.take(i - start + 1).last() == c);
        if !is_white_space(c) {
            body.push(c);
        }
        i = i + 1;
    }
    assert(inner.take(stop - start) =~= inner);
    match base64_decode(body.as_str()) {
        Ok(v) => Some(v),
        Err(_) => None,
    }
}

/// Who is at the other end: the certificate, if there is one, and the identity in it.
#[derive(Debug)]
pub struct PeerIdentity {
    pub leaf_der: Option<Vec<u8>>,
    pub san_identifier: Option<String>,
}

#[verifier::ext_equal]
pub struct IdentityView {
    pub leaf_der: Option<Seq<u8>>,
    pub san_identifier: Option<Seq<char>>,
}

impl View for PeerIdentity {
    type V = IdentityView;

    open spec fn view(&self) -> IdentityView {
        IdentityView {
            leaf_der: match self.leaf_der {
                Some(v) => Some(v@),
                None => None,
            },
            san_identifier: opt_text(self.san_identifier),
        }
    }
}

/// The identity that a certificate gives.
pub open spec fn identity_of(der: Seq<u8>) -> IdentityView {
    IdentityView {
        leaf_der: Some(der),
        san_identifier: match x509_fields(der) {
            Some(f) => identifier_of(f),
            None => None,
        },
    }
}

pub open spec fn nobody() -> IdentityView {
    IdentityView { leaf_der: None, san_identifier: None }
}

impl PeerIdentity {
    /// From the certificates that were verified, of which the first is the client's.
    pub fn from_verified(certs: Option<&Vec<Vec<u8>>>) -> (r: Self)
        ensures
            r@ == (match certs {
                Some(v) => if v@.len() > 0 {
                    identity_of(v@[0]@)
                } else {
                    nobody()
                },
                None => nobody(),
            }),
    {
        match certs {
            Some(v) => {
                if v.len() > 0 {
                    let leaf = v[0].clone();
                    assert(leaf@ == v@[0]@);
                    let san_identifier = extract_san_identifier(leaf.as_slice());
                    PeerIdentity { leaf_der: Some(leaf), san_identifier }
                } else {
                    PeerIdentity::anonymous()
                }
            },
            None => PeerIdentity::anonymous(),
        }
    }

    pub fn anonymous() -> (r: Self)
        ensures
            r@ == nobody(),
    {
        PeerIdentity { leaf_der: None, san_identifier: None }
    }

    pub fn is_authenticated(&self) -> (r: bool)
        ensures
            r == (self@.leaf_der is Some),
    {
        self.leaf_der.is_some()
    }

    /// From the header in which a proxy hands a certificate on, if there is one and
    /// a certificate is in it.
    pub fn from_proxy_header(value: Option<&str>) -> (r: Option<Self>)
        ensures
            match r {
                Some(p) => proxied(crate::service::planning::text_option(value)) == Some(p@),
                None => proxied(crate::service::planning::text_option(value)) is None,
            },
    {
        let raw = match value {
            Some(v) => v,
            None => {
                return None;
            },
        };
        let pem = decode_proxy_header_value(raw);
        let der = match pem_to_der(pem.as_str()) {
            Some(d) => d,
            None => {
                return None;
            },
        };
        let san_identifier = extract_san_identifier(der.as_slice());
        Some(PeerIdentity { leaf_der: Some(der), san_identifier })
    }

    pub fn copy(&self) -> (r: Self)
        ensures
            r@ == self@,
    {
        let leaf_der = match &self.leaf_der {
            Some(v) => {
                let c = v.clone();
                assert(c@ == v@);
                Some(c)
            },
            None => None,
        };
        PeerIdentity { leaf_der, san_identifier: crate::config::copy_opt(&self.san_identifier) }
    }
}

/// The identity that the header of a proxy gives.
pub open spec fn proxied(value: Option<Seq<char>>) -> Option<IdentityView> {
    match value {
        Some(raw) => match pem_der(lossy_text(percent_decoded(encode_utf8(raw)))) {
            Some(der) => Some(identity_of(der)),
            None => None,
        },
        None => None,
    }
}

/// Who a request comes from: whom the proxy names, where it is trusted, else who is
/// at the other end of the connection.
pub open spec fn resolved(
    trust_proxy: bool,
    value: Option<Seq<char>>,
    connection: Option<IdentityView>,
) -> IdentityView {
    if trust_proxy && proxied(value) is Some {
        proxied(value)->0
    } else {
        match connection {
            Some(c) => c,
            None => nobody(),
        }
    }
}

pub open spec fn identity_option(p: Option<&PeerIdentity>) -> Option<IdentityView> {
    match p {
        Some(p) => Some(p@),
        None => None,
    }
}

/// Finds out who a request comes from. The certificate in a header was verified by
/// nobody here: it counts only where this node can be reached through the proxy alone.
pub fn resolve_peer_identity(
    trust_proxy: bool,
    header: Option<&str>,
    connection: Option<&PeerIdentity>,
) -> (r: PeerIdentity)
    ensures
        r@ == resolved(
            trust_proxy,
            crate::service::planning::text_option(header),
            identity_option(connection),
        ),
{
    if trust_proxy {
        if let Some(p) = PeerIdentity::from_proxy_header(header) {
            return p;
        }
    }
    match connection {
        Some(c) => c.copy(),
        None => PeerIdentity::anonymous(),
    }
}

/// What stands behind the last slash.
pub open spec fn last_segment(s: Seq<char>) -> Seq<char> {
    s.skip(last_position(s, '/') + 1)
}

fn last_segment_of(s: &str) -> (r: String)
    ensures
        r@ == last_segment(s@),
{
    match split_last(s, '/') {
        Some((_, rest)) => rest,
        None => {
            assert(s@.skip(0) =~= s@);
            s.to_owned()
        },
    }
}

/// The name in an identity: behind `plain` all of it, behind `path` its last segment,
/// and an identity without either as it is.
pub open spec fn name_in(s: Seq<char>, plain: Seq<char>, path: Seq<char>) -> Seq<char> {
    if starts_with(s, plain) {
        s.skip(plain.len() as int)
    } else if starts_with(s, path) {
        last_segment(s.skip(path.len() as int))
    } else {
        s
    }
}

fn strip_known_prefix(s: &str, plain: &str, path: &str) -> (r: String)
    ensures
        r@ == name_in(s@, plain@, path@),
{
    if let Some(rest) = strip_prefix(s, plain) {
        assert(rest@ =~= s@.skip(plain@.len() as int));
        return rest;
    }
    if let Some(rest) = strip_prefix(s, path) {
        assert(rest@ =~= s@.skip(path@.len() as int));
        return last_segment_of(rest.as_str());
    }
    s.to_owned()
}

/// The application that an identity names.
pub fn sae_id_from_san(s: &str) -> (r: SaeId)
    ensures
        r@ == name_in(s@, "urn:dkms:sae:"@, "sae://"@),
{
    SaeId::new(strip_known_prefix(s, "urn:dkms:sae:", "sae://").as_str())
}

/// The node that an identity names.
pub fn node_id_from_san(s: &str) -> (r: NodeId)
    ensures
        r@ == name_in(s@, "urn:dkms:node:"@, "dkms://"@),
{
    NodeId::new(strip_known_prefix(s, "urn:dkms:node:", "dkms://").as_str())
}

/// What a request is refused with that does not say who it comes from.
pub open spec fn refusal(id: IdentityView) -> Option<Seq<char>> {
    if id.leaf_der is None {
        Some("missing client certificate"@)
    } else if id.san_identifier is None {
        Some("no usable SAN in client cert"@)
    } else {
        None
    }
}

/// The application that a request comes from.
#[derive(Debug)]
pub struct SaePeer {
    pub sae_id: SaeId,
}

impl SaePeer {
    /// The application that an identity names, or the status and the words with
    /// which a request is refused.
    pub fn from_identity(id: &PeerIdentity) -> (r: Result<Self, (u16, &'static str)>)
        ensures
            match (r, refusal(id@)) {
                (Ok(p), None) => p.sae_id@ == name_in(
                    id@.san_identifier->0,
                    "urn:dkms:sae:"@,
                    "sae://"@,
                ),
                (Err((status, text)), Some(m)) => status == 401 && text@ == m,
                _ => false,
            },
    {
        if !id.is_authenticated() {
            return Err((401, "missing client certificate"));
        }
        match &id.san_identifier {
            Some(s) => Ok(SaePeer { sae_id: sae_id_from_san(s.as_str()) }),
            None => Err((401, "no usable SAN in client cert")),
        }
    }
}

/// The node that a request comes from.
#[derive(Debug)]
pub struct DkmsPeer {
    pub node_id: NodeId,
}

impl DkmsPeer {
    /// The node that an identity names, or the status and the words with which a
    /// request is refused.
    pub fn from_identity(id: &PeerIdentity) -> (r: Result<Self, (u16, &'static str)>)
        ensures
            match (r, refusal(id@)) {
                (Ok(p), None) => p.node_id@ == name_in(
                    id@.san_identifier->0,
                    "urn:dkms:node:"@,
                    "dkms://"@,
                ),
                (Err((status, text)), Some(m)) => status == 401 && text@ == m,
                _ => false,
            },
    {
        if !id.is_authenticated() {
            return Err((401, "missing client certificate"));
        }
        match &id.san_identifier {
            Some(s) => Ok(DkmsPeer { node_id: node_id_from_san(s.as_str()) }),
            None => Err((401, "no usable SAN in client cert")),
        }
    }
}

/// Nobody is taken for anyone without a certificate.
pub proof fn nobody_is_refused(trust_proxy: bool, header: Option<Seq<char>>)
    requires
        proxied(header) is None,
    ensures
        refusal(resolved(trust_proxy, header, None)) is Some,
{
}

/// Where no proxy is trusted, a header changes nothing.
pub proof fn untrusted_headers_change_nothing(
    header: Option<Seq<char>>,
    connection: Option<IdentityView>,
)
    ensures
        resolved(false, header, connection) == resolved(false, None, connection),
{
}

/// Bytes without a percent sign are read as they are.
pub proof fn plain_bytes_are_kept(b: Seq<u8>)
    requires
        forall|i: int| 0 <= i < b.len() ==> #[trigger] b[i] != 0x25,
    ensures
        percent_decoded(b) == b,
    decreases b.len(),
{
    if b.len() > 0 {
        let rest = b.skip(1);
        assert forall|i: int| 0 <= i < rest.len() implies #[trigger] rest[i] != 0x25 by {
            assert(rest[i] == b[i + 1]);
        }
        plain_bytes_are_kept(rest);
        assert(seq![b[0]] + rest =~= b);
    } else {
        assert(percent_decoded(b) =~= b);
    }
}

/// A percent sign and two hexadecimal digits, small or capital, stand for the byte
/// of that number, wherever they are.
pub proof fn escapes_stand_for_their_bytes(high: u8, low: u8, h: u8, l: u8, rest: Seq<u8>)
    requires
        h < 16,
        l < 16,
        high == 0x30 + h && h < 10 || high == 0x57 + h && h >= 10 || high == 0x37 + h && h >= 10,
        low == 0x30 + l && l < 10 || low == 0x57 + l && l >= 10 || low == 0x37 + l && l >= 10,
    ensures
        percent_decoded(seq![0x25u8, high, low] + rest) == seq![(16 * h + l) as u8]
            + percent_decoded(rest),
{
    let all = seq![0x25u8, high, low] + rest;
    assert(all[0] == 0x25 && all[1] == high && all[2] == low);
    assert(all.skip(3) =~= rest);
}

proof fn lemma_sextet(n: int)
    requires
        0 <= n < 64,
    ensures
        sextet(base64_char(n) as u8) == Some(n as u8),
        base64_char(n) as u8 != 0x3D,
{
}

/// Base64 reads back as the bytes that it was made of.
pub proof fn base64_reads_back(b: Seq<u8>)
    ensures
        quartets(base64_text(b).map_values(|c: char| c as u8)) == Some(b),
    decreases b.len(),
{
    let text = base64_text(b);
    let codes = text.map_values(|c: char| c as u8);
    if b.len() == 0 {
        assert(codes =~= Seq::empty());
        assert(b =~= Seq::empty());
    } else if b.len() == 1 {
        lemma_sextet(b[0] as int / 4);
        lemma_sextet(b[0] as int % 4 * 16);
        assert(codes.skip(4) =~= Seq::empty());
        assert(quartets(codes.skip(4)) == Some(Seq::<u8>::empty()));
        assert(codes[2] == 0x3D);
        assert(quartet(codes[0], codes[1], codes[2], codes[3]) == Some(seq![b[0]]));
        assert(seq![b[0]] + Seq::<u8>::empty() =~= b);
    } else if b.len() == 2 {
        lemma_sextet(b[0] as int / 4);
        lemma_sextet(b[0] as int % 4 * 16 + b[1] as int / 16);
        lemma_sextet(b[1] as int % 16 * 4);
        assert(codes.skip(4) =~= Seq::empty());
        assert(quartets(codes.skip(4)) == Some(Seq::<u8>::empty()));
        assert(codes[3] == 0x3D);
        assert(quartet(codes[0], codes[1], codes[2], codes[3]) == Some(seq![b[0], b[1]]));
        assert(seq![b[0], b[1]] + Seq::<u8>::empty() =~= b);
    } else {
        lemma_sextet(b[0] as int / 4);
        lemma_sextet(b[0] as int % 4 * 16 + b[1] as int / 16);
        lemma_sextet(b[1] as int % 16 * 4 + b[2] as int / 64);
        lemma_sextet(b[2] as int % 64);
        let rest = base64_text(b.skip(3));
        base64_reads_back(b.skip(3));
        assert(codes.skip(4) =~= rest.map_values(|c: char| c as u8));
        assert(quartet(codes[0], codes[1], codes[2], codes[3]) == Some(seq![b[0], b[1], b[2]]));
        assert(seq![b[0], b[1], b[2]] + b.skip(3) =~= b);
    }
}

/// A trusted proxy says who a request comes from; where it says nothing that can be
/// read, and where it is not trusted, the other end of the connection does. Who is
/// not known at all is nobody.
pub proof fn the_nearest_word_counts(
    trust_proxy: bool,
    header: Option<Seq<char>>,
    connection: Option<IdentityView>,
)
    ensures
        trust_proxy && proxied(header) is Some ==> resolved(trust_proxy, header, connection)
            == proxied(header)->0,
        (!trust_proxy || proxied(header) is None) && connection is Some ==> resolved(
            trust_proxy,
            header,
            connection,
        ) == connection->0,
        (!trust_proxy || proxied(header) is None) && connection is None ==> resolved(
            trust_proxy,
            header,
            connection,
        ).leaf_der is None && resolved(trust_proxy, header, connection).san_identifier is None,
{
}

/// A request is let in exactly if it comes with a certificate that names someone.
pub proof fn certificates_must_name_someone(id: IdentityView)
    ensures
        refusal(id) is None <==> id.leaf_der is Some && id.san_identifier is Some,
{
}

proof fn lemma_last_position(a: Seq<char>, b: Seq<char>, c: char)
    requires
        forall|i: int| 0 <= i < b.len() ==> #[trigger] b[i] != c,
    ensures
        last_position(a.push(c) + b, c) == a.len(),
    decreases b.len(),
{
    let s = a.push(c) + b;
    if b.len() == 0 {
        assert(s =~= a.push(c));
    } else {
        assert(s.last() == b[b.len() - 1]);
        let front = b.drop_last();
        assert forall|i: int| 0 <= i < front.len() implies #[trigger] front[i] != c by {
            assert(front[i] == b[i]);
        }
        lemma_last_position(a, front, c);
        assert(s.drop_last() =~= a.push(c) + front);
    }
}

proof fn lemma_no_position(s: Seq<char>, c: char)
    requires
        forall|i: int| 0 <= i < s.len() ==> #[trigger] s[i] != c,
    ensures
        last_position(s, c) == -1,
    decreases s.len(),
{
    if s.len() > 0 {
        let front = s.drop_last();
        assert forall|i: int| 0 <= i < front.len() implies #[trigger] front[i] != c by {
            assert(front[i] == s[i]);
        }
        lemma_no_position(front, c);
    }
}

/// An identity names what stands behind its prefix: all of it behind a plain one,
/// and behind one that begins a path what comes after its last slash. Without a
/// prefix it is itself the name.
pub proof fn names_stand_behind_their_prefix(
    plain: Seq<char>,
    path: Seq<char>,
    dirs: Seq<char>,
    name: Seq<char>,
    s: Seq<char>,
)
    requires
        forall|i: int| 0 <= i < name.len() ==> #[trigger] name[i] != '/',
    ensures
        name_in(plain + s, plain, path) == s,
        !starts_with(path + name, plain) ==> name_in(path + name, plain, path) == name,
        !starts_with(path + dirs.push('/') + name, plain) ==> name_in(
            path + dirs.push('/') + name,
            plain,
            path,
        ) == name,
        !starts_with(s, plain) && !starts_with(s, path) ==> name_in(s, plain, path) == s,
{
    assert((plain + s).subrange(0, plain.len() as int) =~= plain);
    assert((plain + s).skip(plain.len() as int) =~= s);
    let short = path + name;
    assert(short.subrange(0, path.len() as int) =~= path);
    assert(short.skip(path.len() as int) =~= name);
    lemma_no_position(name, '/');
    assert(name.skip(0) =~= name);
    let long = path + dirs.push('/') + name;
    assert(long.subrange(0, path.len() as int) =~= path);
    assert(long.skip(path.len() as int) =~= dirs.push('/') + name);
    lemma_last_position(dirs, name, '/');
    assert((dirs.push('/') + name).skip(dirs.len() as int + 1) =~= name);
}

/// What is searched for is found where it first stands, and not found only if it
/// stands nowhere.
pub proof fn the_first_place_is_found(s: Seq<char>, p: Seq<char>, from: int)
    requires
        from >= 0,
    ensures
        match find_from(s, p, from) {
            Some(i) => from <= i && occurs_at(s, p, i) && forall|j: int|
                from <= j < i ==> !#[trigger] occurs_at(s, p, j),
            None => forall|j: int| from <= j ==> !#[trigger] occurs_at(s, p, j),
        },
    decreases s.len() + 1 - from,
{
    if from + p.len() <= s.len() && !occurs_at(s, p, from) {
        the_first_place_is_found(s, p, from + 1);
    }
}

/// Taking white space out leaves all else in its order.
pub proof fn only_white_space_is_taken_out(a: Seq<char>, b: Seq<char>, c: char)
    ensures
        compact(a + b) == compact(a) + compact(b),
        white_space(c) ==> compact(seq![c]) == Seq::<char>::empty(),
        !white_space(c) ==> compact(seq![c]) == seq![c],
    decreases b.len(),
{
    if b.len() == 0 {
        assert(a + b =~= a);
        assert(compact(a) + compact(b) =~= compact(a));
    } else {
        assert((a + b).drop_last() =~= a + b.drop_last());
        only_white_space_is_taken_out(a, b.drop_last(), c);
        assert(compact(a + b) =~= compact(a) + compact(b));
    }
    let one = seq![c];
    assert(one.drop_last() =~= Seq::empty());
    reveal_with_fuel(compact, 2);
    assert(!white_space(c) ==> compact(one) =~= one);
}

/// A certificate is what stands between the two marks, and what comes before and
/// after it is not looked at.
pub proof fn certificate_stands_between_its_marks(
    before: Seq<char>,
    body: Seq<char>,
    after: Seq<char>,
)
    requires
        forall|i: int| 0 <= i < before.len() ==> #[trigger] before[i] != '-',
        forall|i: int| 0 <= i < body.len() ==> #[trigger] body[i] != '-',
    ensures
        pem_body(
            before + "-----BEGIN CERTIFICATE-----"@ + body + "-----END CERTIFICATE-----"@ + after,
        ) == Some(compact(body)),
{
    reveal_strlit("-----BEGIN CERTIFICATE-----");
    reveal_strlit("-----END CERTIFICATE-----");
    let begin = "-----BEGIN CERTIFICATE-----"@;
    let end = "-----END CERTIFICATE-----"@;
    let s = before + begin + body + end + after;
    assert(begin[0] == '-' && end[0] == '-' && begin.len() > 0 && end.len() > 0);
    let at = before.len() as int;
    let start = at + begin.len();
    let stop = start + body.len();
    assert(s.subrange(at, start) =~= begin);
    assert forall|j: int| 0 <= j < at implies #[trigger] s[j] != '-' by {
        assert(s[j] == before[j]);
    }
    lemma_mark_is_found(s, begin, 0, at);
    assert(s.subrange(stop, stop + end.len()) =~= end);
    assert forall|j: int| start <= j < stop implies #[trigger] s[j] != '-' by {
        assert(s[j] == body[j - start]);
    }
    lemma_mark_is_found(s, end, start, stop);
    assert(s.subrange(start, stop) =~= body);
}

/// A mark is found behind a stretch without a dash.
proof fn lemma_mark_is_found(s: Seq<char>, mark: Seq<char>, from: int, at: int)
    requires
        mark.len() > 0,
        mark[0] == '-',
        0 <= from <= at,
        occurs_at(s, mark, at),
        forall|j: int| from <= j < at ==> #[trigger] s[j] != '-',
    ensures
        find_from(s, mark, from) == Some(at),
    decreases at - from,
{
    if from < at {
        if occurs_at(s, mark, from) {
            assert(s.subrange(from, from + mark.len())[0] == s[from]);
        }
        lemma_mark_is_found(s, mark, from + 1, at);
    }
}

} // verus!
