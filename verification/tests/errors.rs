use dkms::config::{ConfigError, DkmsConfig, SecretString, TlsCfg};
use dkms::config::{
    BufferCfg, GeneratorCfg, PeerCfg, PeerTransport, PendingCfg, RequestCfg, SaeBindingCfg, SaeCfg,
};
use dkms::crypto::aead::AeadError;
use dkms::crypto::frame_mac::ReplayError;
use dkms::crypto::otp::{xor, xor_in_place, OtpError};
use dkms::crypto::pqc::PqcError;
use dkms::e2e::E2eError;
use dkms::error::{error_to_response, CommonError, DkmsError, RpcCode};
use dkms::ids::SaeId;
use dkms::ipc::binary_tcp::{decode_frame, decode_prefix, Frame, WireError, FRAME_RELAY};
use dkms::security::{KeyGrade, SecurityLevel};
use dkms::table::{Headers, Table};

fn s(t: &str) -> String {
    t.to_string()
}

#[test]
fn every_failure_has_its_words_and_its_status() {
    let sae = || SaeId::new("x");
    let all: Vec<(DkmsError, u16, &str)> = vec![
        (
            DkmsError::Unauthenticated,
            401,
            "unauthenticated: missing or invalid client certificate",
        ),
        (
            DkmsError::Forbidden(sae(), SaeId::new("y")),
            403,
            "forbidden: sae x cannot act on behalf of y",
        ),
        (DkmsError::UnknownSae(sae()), 404, "unknown sae: x"),
        (
            DkmsError::RateLimited { sae: sae(), requested: 3, available: 2 },
            429,
            "rate-limited: sae x requested 3 tokens, 2 available",
        ),
        (DkmsError::BadRequest(s("b")), 400, "invalid request: b"),
        (
            DkmsError::PeerUnreachable { peer: s("p"), source: s("e") },
            502,
            "peer dkms p unreachable: e",
        ),
        (
            DkmsError::PeerRejected { peer: s("p"), status: 418, body: s("t") },
            502,
            "peer dkms p rejected: HTTP 418 \u{2014} t",
        ),
        (
            DkmsError::PeerAckTimeout { peer: s("p") },
            502,
            "peer dkms p did not ack within timeout",
        ),
        (
            DkmsError::PeerOrrMisconfig { peer: s("p"), missing: s("m") },
            502,
            "peer dkms p: orr transport configured but m",
        ),
        (
            DkmsError::OrrSendFailed { peer: s("p"), source: s("e") },
            502,
            "peer dkms p: orr send_message failed: e",
        ),
        (
            DkmsError::TransportBufferEmpty { peer: s("p") },
            503,
            "transport buffer empty for peer p",
        ),
        (
            DkmsError::TransportKeyMissing { peer: s("p"), key_id: s("k") },
            503,
            "transport key k not in buffer_dec[p]",
        ),
        (DkmsError::SdnUnreachable(s("e")), 502, "sdn unreachable: e"),
        (DkmsError::QkcUnreachable(s("e")), 502, "qkc unreachable: e"),
        (
            DkmsError::SaeBindingLookupFailed(sae()),
            404,
            "sae binding lookup failed for x",
        ),
    ];
    for (e, status, text) in all {
        assert_eq!(e.text(), text);
        assert_eq!(error_to_response(&e), (status, s(text)));
    }
}

#[test]
fn answers_do_not_lay_open_keys_or_this_node() {
    let missing = DkmsError::KeyNotAuthorized { sae: SaeId::new("x") };
    assert_eq!(missing.text(), "key not found or not authorized for sae x");
    assert_eq!(DkmsError::KeyExpired.text(), "key expired");
    assert_eq!(error_to_response(&missing), (404, s("key not found")));
    assert_eq!(error_to_response(&DkmsError::KeyExpired), (404, s("key not found")));
    let internal = [
        (DkmsError::Tls(s("t")), "t"),
        (DkmsError::Crypto(s("c")), "crypto: c"),
        (DkmsError::Io(s("i")), "io: i"),
        (DkmsError::Common(CommonError::not_found("n")), "not found: n"),
        (DkmsError::Other(s("o")), "o"),
    ];
    for (e, text) in internal {
        assert_eq!(e.text(), text);
        assert_eq!(error_to_response(&e), (500, s("internal error")));
    }
}

#[test]
fn failures_become_statuses_of_calls() {
    let status = |e: CommonError| e.rpc_status();
    assert_eq!(
        status(CommonError::invalid_arg("a")),
        (RpcCode::InvalidArgument, s("a"))
    );
    assert_eq!(status(CommonError::not_found("a")), (RpcCode::NotFound, s("a")));
    assert_eq!(
        status(CommonError::unavailable("a")),
        (RpcCode::Unavailable, s("a"))
    );
    let passed = CommonError::Status {
        code: RpcCode::Numbered(16),
        message: s("m"),
        printed: s("p"),
    };
    assert_eq!(passed.text(), "tonic status: p");
    assert_eq!(status(passed), (RpcCode::Numbered(16), s("m")));
    for (e, text) in [
        (CommonError::Io(s("x")), "io error: x"),
        (CommonError::Transport(s("x")), "tonic transport error: x"),
        (CommonError::Tls(s("x")), "tls error: x"),
        (CommonError::Other(s("x")), "x"),
        (
            CommonError::Config(ConfigError::Build(s("x"))),
            "config error: config build failed: x",
        ),
        (
            CommonError::Config(ConfigError::DirMissing(s("\"d\""))),
            "config error: config dir not found at \"d\"",
        ),
    ] {
        assert_eq!(e.text(), text);
        assert_eq!(status(e), (RpcCode::Internal, s(text)));
    }
    assert_eq!(CommonError::invalid_arg("x").text(), "invalid argument: x");
    assert_eq!(CommonError::unavailable("x").text(), "unavailable: x");
}

#[test]
fn other_failures_have_their_words() {
    assert_eq!(AeadError::BadKeyLen(16).text(), "bad key length: expected 32, got 16");
    assert_eq!(AeadError::BadNonceLen(1).text(), "bad nonce length: expected 12, got 1");
    assert_eq!(AeadError::Encrypt.text(), "aead encrypt failed");
    assert_eq!(
        AeadError::Decrypt.text(),
        "aead decrypt failed (auth tag mismatch or tampered ciphertext)"
    );
    assert!(matches!(
        xor(b"abc", b"ab"),
        Err(OtpError::KeyTooShort { key: 2, pt: 3 })
    ));
    let mut data = [1u8, 2];
    assert_eq!(xor_in_place(&mut data, &[3, 3, 3]), Ok(2));
    assert_eq!(data, [2, 1]);
    assert_eq!(PqcError::UnsupportedSuite(s("x")).text(), "unsupported suite: x");
    assert_eq!(PqcError::Backend(s("x")).text(), "backend error: x");
    assert_eq!(
        ReplayError::TooOld { session: 2, counter: 1, floor: 5 }.text(),
        "frame too old (session 2, counter 1, window ends at 5)"
    );
    assert_eq!(
        ReplayError::Replayed { session: 2, counter: 1 }.text(),
        "replayed frame (session 2, counter 1)"
    );
    assert_eq!(ReplayError::RetiredSession { session: 2 }.text(), "retired session 2");
    assert_eq!(ReplayError::ZeroCounter.text(), "zero counter is not valid");
    assert_eq!(E2eError::NoEpoch { peer: s("p") }.text(), "sin \u{e9}poca acordada con p");
    assert_eq!(
        E2eError::UnknownEpoch { peer: s("p"), epoch: 7 }.text(),
        "\u{e9}poca 7 desconocida para p"
    );
    assert_eq!(
        E2eError::Replay(ReplayError::ZeroCounter).text(),
        "replay: zero counter is not valid"
    );
    assert_eq!(E2eError::Kem(s("x")).text(), "kem: x");
    assert_eq!(E2eError::Peer(s("x")).text(), "peer: x");
    assert_eq!(
        E2eError::Header(s("x")).text(),
        "cabecera e2e incompleta o malformada: x"
    );
    assert_eq!(
        E2eError::BadTag.text(),
        "tag e2e inv\u{e1}lido (material o cabecera alterados, o secreto divergente)"
    );
}

#[test]
fn frames_that_are_not_whole_are_refused() {
    let f = Frame {
        kind: FRAME_RELAY,
        sender_id: 1,
        receiver_id: 2,
        dest_final: 3,
        key_size_bits: 256,
        key_ids: vec![s("a"), s("b")],
        header_mp: vec![1, 2],
        payload: vec![9; 5],
    };
    let bytes = f.encode();
    let mut prefix = [0u8; 10];
    prefix.copy_from_slice(&bytes[..10]);
    let (kind, len) = decode_prefix(&prefix).unwrap();
    assert_eq!((kind, len as usize), (FRAME_RELAY, bytes.len() - 10));
    let back = decode_frame(kind, &bytes[10..]).unwrap();
    assert_eq!(back.kind, FRAME_RELAY);
    assert_eq!(back.key_ids, f.key_ids);
    assert_eq!(back.header_mp, f.header_mp);
    assert_eq!(back.payload, f.payload);
    assert!(matches!(decode_frame(kind, &bytes[10..12]), Err(WireError::Truncated(_))));
    prefix[0] = 0;
    assert!(matches!(decode_prefix(&prefix), Err(WireError::BadMagic)));
    prefix.copy_from_slice(&bytes[..10]);
    prefix[6..10].copy_from_slice(&[0xFF; 4]);
    assert!(matches!(decode_prefix(&prefix), Err(WireError::TooLarge(_))));
}

fn peer(level: Option<SecurityLevel>) -> PeerCfg {
    PeerCfg {
        endpoint: s("e"),
        sni: None,
        orr_id: None,
        transport: PeerTransport::default(),
        max_hops: None,
        orr_path: None,
        security_level: level,
    }
}

#[test]
fn configurations_have_their_defaults() {
    let mut peers = Table::new();
    peers.insert("a", peer(Some(SecurityLevel::StrictQkd)));
    peers.insert("b", peer(None));
    let cfg = DkmsConfig {
        node_id: s("n"),
        peers,
        buffer: BufferCfg::default(),
        pending: PendingCfg::default(),
        sae: SaeCfg::default(),
        sae_bindings: Table::new(),
        request: RequestCfg::default(),
        default_security_level: SecurityLevel::NoWorry,
    };
    assert_eq!(cfg.security_level_for("a"), SecurityLevel::StrictQkd);
    assert_eq!(cfg.security_level_for("b"), SecurityLevel::NoWorry);
    assert_eq!(cfg.security_level_for("z"), SecurityLevel::NoWorry);
    assert_eq!(cfg.request.total_timeout_ms(), 4_000);
    assert_eq!(cfg.buffer.capacity_per_peer, 4096);
    assert_eq!(SaeBindingCfg::default().max_entries, 16_384);
    assert_eq!(GeneratorCfg::default().ack_transport, "socket");
    let tls = |ca: Option<String>| TlsCfg {
        cert_path: s("c"),
        key_path: s("k"),
        sae_client_ca: s("s"),
        peer_dkms_ca: s("p"),
        control_plane_ca: ca,
    };
    assert_eq!(tls(None).control_ca(), "p");
    assert_eq!(tls(Some(s("x"))).control_ca(), "x");
    let secret = SecretString::new("pw");
    assert_eq!(secret.expose(), "pw");
    assert!(!secret.redacted().contains("pw"));
}

#[test]
fn every_level_and_grade_has_its_token() {
    for l in [SecurityLevel::StrictQkd, SecurityLevel::QkdPrefer, SecurityLevel::NoWorry] {
        assert_eq!(SecurityLevel::from_token(l.as_str()), Some(l));
    }
    assert_eq!(SecurityLevel::from_token("bogus"), None);
    assert_eq!((KeyGrade::Qkd.as_str(), KeyGrade::Qkd.wire_byte()), ("qkd", 0));
    assert_eq!((KeyGrade::Pqc.as_str(), KeyGrade::Pqc.wire_byte()), ("pqc", 1));
    assert_eq!(KeyGrade::default(), KeyGrade::Qkd);
}

#[test]
fn tables_and_headers_keep_what_is_put_in() {
    let mut t: Table<u32> = Table::new();
    assert_eq!(t.insert("a", 1), None);
    assert_eq!(t.insert("b", 2), None);
    assert_eq!(t.insert("a", 3), Some(1));
    *t.get_mut("b").unwrap() = 9;
    assert_eq!((t.get("a"), t.get("b"), t.get("c")), (Some(&3), Some(&9), None));
    assert_eq!(t.len(), 2);
    assert_eq!(t.remove("a"), Some(3));
    assert_eq!(t.remove("a"), None);
    assert!(t.contains("b"));
    assert_eq!(t.key_list(), vec![s("b")]);
    assert_eq!(t.entry(0), ("b", &9));

    let mut h = Headers::new();
    for (k, v) in [("z", "1"), ("a", "2"), ("m", "3"), ("a", "4")] {
        h.insert(k, v);
    }
    h.remove("m");
    h.remove("nope");
    assert_eq!(h.len(), 2);
    assert_eq!((h.pair(0), h.pair(1)), (("a", "4"), ("z", "1")));
    assert_eq!(h.get("m"), None);
}
