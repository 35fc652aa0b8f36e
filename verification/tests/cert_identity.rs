use base64::engine::general_purpose::STANDARD;
use base64::Engine;
use dkms::auth::{
    base64_decode, decode_proxy_header_value, hex_val, node_id_from_san, pem_to_der,
    resolve_peer_identity, sae_id_from_san, DkmsPeer, PeerIdentity, SaePeer,
};
use dkms::cert_identity::{
    classical_certs_allowed, extract_san_identifier, identifier_from_fields, judge_node,
    node_id_from_cert, node_id_from_certs, node_id_from_fields, spki_public_key, verify_algs,
    verify_node_cert, AltName, CertFields, SigAlg, TrustRoots,
};
use dkms::crypto::pqc_sign::{
    keygen, sign, sign_orr_pubkey, verify_orr_pubkey, SignKeypair, VERIFYING_KEY_LEN,
};

const NOW: u64 = 1_800_000_000;

fn tlv(tag: u8, content: &[u8]) -> Vec<u8> {
    let n = content.len();
    let mut out = vec![tag];
    if n < 0x80 {
        out.push(n as u8);
    } else if n < 0x100 {
        out.extend([0x81, n as u8]);
    } else {
        out.extend([0x82, (n >> 8) as u8, n as u8]);
    }
    out.extend(content);
    out
}

fn seq(parts: &[Vec<u8>]) -> Vec<u8> {
    tlv(0x30, &parts.concat())
}

fn ml_dsa_65() -> Vec<u8> {
    seq(&[tlv(6, &[0x60, 0x86, 0x48, 0x01, 0x65, 0x03, 0x04, 0x03, 0x12])])
}

fn name(cn: &str) -> Vec<u8> {
    let attr = seq(&[tlv(6, &[0x55, 0x04, 0x03]), tlv(0x0C, cn.as_bytes())]);
    seq(&[tlv(0x31, &attr)])
}

fn bits(b: &[u8]) -> Vec<u8> {
    let mut v = vec![0];
    v.extend(b);
    tlv(3, &v)
}

enum San<'a> {
    Uri(&'a str),
    Dns(&'a str),
}

fn certificate(
    issuer: &str,
    issuer_key: &SignKeypair,
    subject: &str,
    key: &SignKeypair,
    sans: &[San<'_>],
    ca: bool,
) -> Vec<u8> {
    let mut exts = Vec::new();
    if ca {
        exts.push(seq(&[
            tlv(6, &[0x55, 0x1D, 0x13]),
            tlv(1, &[0xFF]),
            tlv(4, &seq(&[tlv(1, &[0xFF])])),
        ]));
    }
    if !sans.is_empty() {
        let names: Vec<Vec<u8>> = sans
            .iter()
            .map(|s| match s {
                San::Uri(u) => tlv(0x86, u.as_bytes()),
                San::Dns(d) => tlv(0x82, d.as_bytes()),
            })
            .collect();
        exts.push(seq(&[tlv(6, &[0x55, 0x1D, 0x11]), tlv(4, &seq(&names))]));
    }
    let mut parts = vec![
        tlv(0xA0, &tlv(2, &[2])),
        tlv(2, &[1]),
        ml_dsa_65(),
        name(issuer),
        seq(&[tlv(0x17, b"250101000000Z"), tlv(0x17, b"350101000000Z")]),
        name(subject),
        seq(&[ml_dsa_65(), bits(&key.verifying_key)]),
    ];
    if !exts.is_empty() {
        parts.push(tlv(0xA3, &seq(&exts)));
    }
    let tbs = seq(&parts);
    let signature = sign(&issuer_key.secret_seed, &tbs).unwrap();
    seq(&[tbs, ml_dsa_65(), bits(&signature)])
}

struct Pki {
    ca_key: SignKeypair,
    ca: Vec<u8>,
}

fn authority(cn: &str) -> Pki {
    let ca_key = keygen();
    let ca = certificate(cn, &ca_key, cn, &ca_key, &[], true);
    Pki { ca_key, ca }
}

impl Pki {
    fn roots(&self) -> TrustRoots {
        TrustRoots::from_pem(pem(&self.ca).as_bytes()).unwrap()
    }

    fn node(&self, id: &str) -> (SignKeypair, Vec<u8>) {
        let key = keygen();
        let uri = format!("dkms://{id}");
        let cert = certificate("net-ca", &self.ca_key, id, &key, &[San::Uri(&uri)], false);
        (key, cert)
    }
}

fn pem(der: &[u8]) -> String {
    format!(
        "-----BEGIN CERTIFICATE-----\n{}\n-----END CERTIFICATE-----\n",
        STANDARD.encode(der)
    )
}

#[test]
fn a_node_cert_identifies_its_node_and_signs_verifiably() {
    let pki = authority("net-ca");
    let (key, leaf) = pki.node("orr_1");
    assert_eq!(node_id_from_cert(&leaf).as_deref(), Some("orr_1"));
    assert_eq!(extract_san_identifier(&leaf).as_deref(), Some("dkms://orr_1"));
    assert_eq!(node_id_from_certs(&vec![leaf.clone()]).as_deref(), Some("orr_1"));
    assert_eq!(node_id_from_certs(&vec![]), None);

    let roots = pki.roots();
    assert_eq!(roots.len(), 1);
    assert!(!roots.is_empty());
    let chain = vec![leaf.clone()];
    let vk = verify_node_cert(&chain, &roots, "ORR_1", false, NOW).expect("chain and name");
    assert_eq!(vk.len(), VERIFYING_KEY_LEN);
    assert_eq!(vk, key.verifying_key);
    assert_eq!(spki_public_key(&leaf).unwrap(), vk);
    assert_eq!(
        verify_node_cert(&chain, &roots, "orr_2", false, NOW).unwrap_err(),
        "el cert es de `orr_1`, no de `orr_2`"
    );

    let rogue = authority("net-ca");
    assert!(verify_node_cert(&chain, &rogue.roots(), "orr_1", false, NOW)
        .unwrap_err()
        .starts_with("la cadena no verifica contra la CA de red: "));
    let (_, forged) = rogue.node("orr_1");
    assert!(verify_node_cert(&vec![forged], &roots, "orr_1", false, NOW).is_err());
    assert!(verify_node_cert(&chain, &roots, "orr_1", false, 2_100_000_000).is_err(), "expired");
    assert!(verify_node_cert(&chain, &roots, "orr_1", true, NOW).is_ok());

    let pk = vec![0x42u8; 1184];
    let sig = sign_orr_pubkey(&key.secret_seed, "orr_1", "ml-kem-768", &pk).unwrap();
    verify_orr_pubkey(&vk, "orr_1", "ml-kem-768", &pk, &sig).expect("signed by the certificate");
    assert!(verify_orr_pubkey(&vk, "orr_1", "ml-kem-768", &[0x43u8; 1184], &sig).is_err());
}

#[test]
fn a_chain_may_lead_through_other_certificates() {
    let pki = authority("net-ca");
    let mid_key = keygen();
    let mid = certificate("net-ca", &pki.ca_key, "mid-ca", &mid_key, &[], true);
    let key = keygen();
    let leaf = certificate("mid-ca", &mid_key, "n", &key, &[San::Uri("dkms://N1")], false);
    let roots = pki.roots();
    assert!(verify_node_cert(&vec![leaf.clone(), mid], &roots, "n1", false, NOW).is_ok());
    assert!(verify_node_cert(&vec![leaf], &roots, "n1", false, NOW).is_err());
}

#[test]
fn what_is_no_chain_is_refused() {
    let pki = authority("net-ca");
    let roots = pki.roots();
    assert_eq!(
        verify_node_cert(&vec![], &roots, "x", false, NOW).unwrap_err(),
        "cadena vac\u{ed}a"
    );
    assert!(verify_node_cert(&vec![vec![1, 2, 3]], &roots, "x", false, NOW)
        .unwrap_err()
        .starts_with("hoja: "));
    let key = keygen();
    let nameless = certificate("net-ca", &pki.ca_key, "x", &key, &[San::Dns("x")], false);
    assert_eq!(
        verify_node_cert(&vec![nameless.clone()], &roots, "x", false, NOW).unwrap_err(),
        "el cert no lleva SAN URI dkms://<id>"
    );
    let broken = TrustRoots::from_certs(vec![vec![0]]).unwrap();
    assert!(verify_node_cert(&vec![nameless], &broken, "x", false, NOW)
        .unwrap_err()
        .starts_with("CA: "));
    assert_eq!(
        TrustRoots::from_pem(b"").map(|_| ()).unwrap_err(),
        "CA PEM sin certificados"
    );
    assert!(TrustRoots::from_pem(b"-----BEGIN CERTIFICATE-----\n*\n-----END CERTIFICATE-----\n")
        .map(|_| ())
        .unwrap_err()
        .starts_with("CA PEM: "));
}

#[test]
fn an_identity_is_a_uri_or_a_host_or_a_common_name() {
    let key = keygen();
    let made = |sans: &[San<'_>]| certificate("i", &key, "the-cn", &key, sans, false);
    let id = |sans: &[San<'_>]| extract_san_identifier(&made(sans));
    assert_eq!(
        id(&[San::Dns("host"), San::Uri("u:1"), San::Uri("u:2")]).as_deref(),
        Some("u:1")
    );
    assert_eq!(id(&[San::Dns("host"), San::Dns("other")]).as_deref(), Some("host"));
    assert_eq!(id(&[]).as_deref(), Some("the-cn"));
    assert_eq!(extract_san_identifier(b"no certificate"), None);
    assert_eq!(node_id_from_cert(&made(&[San::Uri("dkms://")])), None);
    assert_eq!(
        node_id_from_cert(&made(&[San::Uri("sae://x"), San::Uri("dkms://Node-7")])).as_deref(),
        Some("node-7")
    );
}

fn fields(extensions: Vec<Option<Vec<AltName>>>, common_names: Vec<Option<String>>) -> CertFields {
    CertFields { extensions, common_names, public_key: vec![7] }
}

#[test]
fn fields_of_a_certificate_are_judged() {
    let f = fields(
        vec![
            None,
            Some(vec![AltName::Other, AltName::Dns("d".into())]),
            Some(vec![AltName::Uri("dkms://A".into())]),
        ],
        vec![Some("cn".into())],
    );
    assert_eq!(identifier_from_fields(&f).as_deref(), Some("dkms://A"));
    assert_eq!(node_id_from_fields(&f).as_deref(), Some("a"));
    assert_eq!(judge_node(None, Some(f), "A").unwrap(), vec![7]);
    let cn = fields(vec![Some(vec![AltName::Other])], vec![None, Some("second".into())]);
    assert_eq!(identifier_from_fields(&cn), None, "the first common name counts");
    assert_eq!(
        judge_node(None, None, "a").unwrap_err(),
        "el cert no lleva SAN URI dkms://<id>"
    );
    assert_eq!(
        judge_node(Some("boom".into()), Some(cn), "a").unwrap_err(),
        "la cadena no verifica contra la CA de red: boom"
    );
}

#[test]
fn classical_algorithms_are_accepted_only_where_asked_for() {
    assert_eq!(verify_algs(false), vec![SigAlg::MlDsa65]);
    assert_eq!(verify_algs(true).len(), 8);
    assert!(classical_certs_allowed(Some("1")));
    assert!(!classical_certs_allowed(Some("true")));
    assert!(!classical_certs_allowed(None));
}

fn escaped(text: &str) -> String {
    text.bytes()
        .map(|b| match b {
            b'a'..=b'z' | b'A'..=b'Z' | b'0'..=b'9' => (b as char).to_string(),
            _ => format!("%{b:02X}"),
        })
        .collect()
}

#[test]
fn a_proxy_hands_the_certificate_of_the_client_on() {
    let pki = authority("net-ca");
    let key = keygen();
    let uri = San::Uri("urn:dkms:sae:alice");
    let client = certificate("net-ca", &pki.ca_key, "alice", &key, &[uri], false);
    let (_, proxy) = pki.node("ingress");
    let connection = PeerIdentity::from_verified(Some(&vec![proxy]));
    assert_eq!(connection.san_identifier.as_deref(), Some("dkms://ingress"));

    let header = escaped(&pem(&client));
    let id = resolve_peer_identity(true, Some(&header), Some(&connection));
    assert_eq!(id.leaf_der.as_deref(), Some(&client[..]));
    assert_eq!(SaePeer::from_identity(&id).unwrap().sae_id.as_str(), "alice");
    let id = resolve_peer_identity(false, Some(&header), Some(&connection));
    assert_eq!(id.san_identifier.as_deref(), Some("dkms://ingress"));
    let id = resolve_peer_identity(true, Some("nonsense"), Some(&connection));
    assert_eq!(DkmsPeer::from_identity(&id).unwrap().node_id.as_str(), "ingress");
    let id = resolve_peer_identity(true, None, None);
    assert!(!id.is_authenticated());
    assert_eq!(
        SaePeer::from_identity(&id).map(|_| ()).unwrap_err(),
        (401, "missing client certificate")
    );
    let unreadable = PeerIdentity::from_verified(Some(&vec![vec![1]]));
    assert_eq!(
        DkmsPeer::from_identity(&unreadable).map(|_| ()).unwrap_err(),
        (401, "no usable SAN in client cert")
    );
    assert!(!PeerIdentity::from_verified(Some(&vec![])).is_authenticated());
}

#[test]
fn names_stand_behind_known_prefixes() {
    assert_eq!(sae_id_from_san("urn:dkms:sae:sae-x").as_str(), "sae-x");
    assert_eq!(sae_id_from_san("sae://organisation/sae-x").as_str(), "sae-x");
    assert_eq!(sae_id_from_san("sae://sae-y").as_str(), "sae-y");
    assert_eq!(sae_id_from_san("plain/name").as_str(), "plain/name");
    assert_eq!(node_id_from_san("urn:dkms:node:n1").as_str(), "n1");
    assert_eq!(node_id_from_san("dkms://a/b/n2").as_str(), "n2");
    assert_eq!(node_id_from_san("sae://n3").as_str(), "sae://n3");
}

#[test]
fn percent_signs_are_decoded_where_two_digits_follow() {
    assert_eq!(decode_proxy_header_value("a%20b%0A"), "a b\n");
    assert_eq!(decode_proxy_header_value("a%2"), "a%2");
    assert_eq!(decode_proxy_header_value("a%20b%0Ac"), "a b\nc");
    assert_eq!(decode_proxy_header_value("100%, %zz%41x"), "100%, %zzAx");
    assert_eq!(decode_proxy_header_value("%C3%A1."), "\u{e1}.");
    assert_eq!(decode_proxy_header_value("%FFx"), "\u{fffd}x");
    assert_eq!((hex_val(b'f'), hex_val(b'F'), hex_val(b'g')), (Some(15), Some(15), None));
}

#[test]
fn base64_is_read_four_characters_at_a_time() {
    assert_eq!(base64_decode(""), Ok(vec![]));
    assert_eq!(base64_decode("AQID"), Ok(vec![1, 2, 3]));
    assert_eq!(base64_decode("AQI="), Ok(vec![1, 2]));
    assert_eq!(base64_decode("AQ=="), Ok(vec![1]));
    assert_eq!(base64_decode("+/+/"), Ok(vec![0xFB, 0xFF, 0xBF]));
    assert_eq!(base64_decode("AQ==AQ=="), Ok(vec![1, 1]));
    for bad in ["A", "AQI", "A*ID", "=AAA", "AQ?D"] {
        assert_eq!(base64_decode(bad), Err(()), "{bad}");
    }
    assert_eq!(
        pem_to_der("x-----BEGIN CERTIFICATE-----\n AQ\tID \n-----END CERTIFICATE-----"),
        Some(vec![1, 2, 3])
    );
    assert_eq!(pem_to_der("-----BEGIN CERTIFICATE-----AQID"), None);
}
