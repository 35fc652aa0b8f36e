use dkms::http::{
    client_kind, identity_bundle, split_ca_bundle, url_is_https, ClientKind, ControlTlsCfg,
};
use dkms::peer_client::{
    accepted_reply, ack_key_ids, parse_ca_bundle, peer_url, unreadable_ack, PeerReply,
    EXT_KEYS_ACK_PATH, EXT_KEYS_PATH,
};

#[test]
fn scheme_decides_transport() {
    assert!(url_is_https("https://sdn:8081"));
    assert!(url_is_https("HTTPS://sdn:8081"));
    assert!(!url_is_https("http://sdn:8081"));
    assert!(!url_is_https("sdn:8081"));
}

#[test]
fn a_client_for_tls_needs_material_and_another_does_not() {
    assert_eq!(client_kind("http://sdn:8081", false), ClientKind::Plain);
    assert_eq!(client_kind("https://sdn:8081", false), ClientKind::MissingMaterial);
    assert_eq!(client_kind("https://sdn:8081", true), ClientKind::MutualTls);
    assert_eq!(client_kind("  Https://sdn", true), ClientKind::MutualTls);
}

#[test]
fn certificate_and_key_stand_on_lines_of_their_own() {
    assert_eq!(identity_bundle(b"cert\n", b"key"), b"cert\nkey");
    assert_eq!(identity_bundle(b"cert", b"key"), b"cert\nkey");
    assert_eq!(identity_bundle(b"", b"key"), b"\nkey");
}

#[test]
fn a_bundle_is_taken_apart_into_certificates() {
    let text = "junk\n-----BEGIN CERTIFICATE-----\r\nAA\r\n-----END CERTIFICATE-----\r\n\
                -----BEGIN CERTIFICATE-----\nBB\n-----END CERTIFICATE-----\ntail";
    let want = vec![
        "junk\n-----BEGIN CERTIFICATE-----\nAA\n-----END CERTIFICATE-----\n".to_string(),
        "-----BEGIN CERTIFICATE-----\nBB\n-----END CERTIFICATE-----\n".to_string(),
    ];
    assert_eq!(split_ca_bundle(text), want);
    assert_eq!(parse_ca_bundle(text).unwrap(), want);
    assert_eq!(
        parse_ca_bundle("nothing here").unwrap_err().text(),
        "crypto: peer_ca file has no BEGIN CERTIFICATE blocks"
    );
}

#[test]
fn urls_of_peers_have_one_slash_before_the_path() {
    assert_eq!(
        peer_url("https://p:1//", EXT_KEYS_PATH),
        "https://p:1/kmapi/v1/ext_keys"
    );
    assert_eq!(
        peer_url("https://p:1", EXT_KEYS_ACK_PATH),
        "https://p:1/kmapi/v1/ext_keys/ack"
    );
}

#[test]
fn replies_of_peers_are_taken_by_their_status() {
    let body = |s: &str| s.to_string();
    assert_eq!(
        accepted_reply("p", PeerReply::Answered { status: 204, body: body("ok") }).unwrap(),
        "ok"
    );
    for status in [199, 300, 404, 503] {
        let e = accepted_reply("p", PeerReply::Answered { status, body: body("no") }).unwrap_err();
        assert_eq!(e.text(), format!("peer dkms p rejected: HTTP {status} \u{2014} no"));
    }
    assert_eq!(
        accepted_reply("p", PeerReply::Failed(body("refused"))).unwrap_err().text(),
        "peer dkms p unreachable: refused"
    );
    assert_eq!(
        accepted_reply("p", PeerReply::TimedOut).unwrap_err().text(),
        "peer dkms p did not ack within timeout"
    );
    assert_eq!(
        unreadable_ack("p", 200, "eof").text(),
        "peer dkms p rejected: HTTP 200 \u{2014} ack parse: eof"
    );
}

#[test]
fn acknowledgements_name_identifiers_only() {
    let ids: Vec<String> = [
        "BC490419-7D60-487F-ADC1-4DDCC177C139",
        "not an id",
        "{bc490419-7d60-487f-adc1-4ddcc177c13a}",
        "urn:uuid:bc490419-7d60-487f-adc1-4ddcc177c13b",
        "bc4904197d60487fadc14ddcc177c13c",
        "bc490419-7d60-487f-adc1-4ddcc177c13",
    ]
    .iter()
    .map(|s| s.to_string())
    .collect();
    assert_eq!(
        ack_key_ids(&ids),
        vec![
            "bc490419-7d60-487f-adc1-4ddcc177c139".to_string(),
            "bc490419-7d60-487f-adc1-4ddcc177c13a".to_string(),
            "bc490419-7d60-487f-adc1-4ddcc177c13b".to_string(),
            "bc490419-7d60-487f-adc1-4ddcc177c13c".to_string(),
        ]
    );
}

#[test]
fn control_material_is_lent_field_by_field() {
    let cfg = ControlTlsCfg {
        cert_path: "node.pem".to_string(),
        key_path: "node.key".to_string(),
        control_plane_ca: "net_ca.pem".to_string(),
    };
    let tls = cfg.as_client_tls();
    assert_eq!(tls.ca_path, "net_ca.pem");
    assert_eq!(tls.cert_path, "node.pem");
    assert_eq!(tls.key_path, "node.key");
}
