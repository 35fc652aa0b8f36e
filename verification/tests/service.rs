use dkms::buffers::{BufferPool, TransportKey};
use dkms::clock::{MILLISECOND, SECOND};
use dkms::config::{
    BufferCfg, DkmsConfig, GeneratorCfg, PeerCfg, PeerTransport, PendingCfg, RequestCfg, SaeCfg,
    TransportE2eCfg,
};
use dkms::ack_socket::BatchedAckClient;
use dkms::error::DkmsError;
use dkms::etsi::{
    Etsi014KeyRequest, Etsi020AckStatus, Etsi020ExtKeyContainer, Etsi020Key, ExtValue, Extensions,
};
use dkms::generator::{seal_emission, Generator};
use dkms::ids::{KeyId, NodeId, SaeId};
use dkms::orr::key_digest;
use dkms::peers::PeerRegistry;
use dkms::security::{KeyGrade, SecurityLevel};
use dkms::service::control::RegisterArgs;
use dkms::service::delivery::{Delivery, Forgotten};
use dkms::service::distribution::admission_step;
use dkms::service::session::{
    generate_session_keys, unwrap_session_key, wrap_session_key, TRANSPORT_KEY_BYTES,
};
use dkms::service::{
    check_request_limits, peer_with_stale_transport_buffer, sae_served_locally, DkmsService,
    MAX_KEY_PER_REQUEST, MAX_KEY_SIZE_BITS, MAX_SAE_ID_COUNT, MIN_KEY_SIZE_BITS,
};
use dkms::table::{Headers, Table};

fn bindings(pairs: &[(&str, &str)]) -> Table<String> {
    let mut t = Table::new();
    for (s, n) in pairs {
        t.insert(s, n.to_string());
    }
    t
}

#[test]
fn session_key_digest_catches_a_diverged_transport_key() {
    let key_id = "bc490419-7d60-487f-adc1-4ddcc177c139";
    let session_key = vec![0xA5u8; TRANSPORT_KEY_BYTES];
    let transport_ok = vec![0x11u8; TRANSPORT_KEY_BYTES];
    let wire = wrap_session_key(&transport_ok, &session_key).unwrap();
    let expected = key_digest(key_id, &session_key);

    let pt = unwrap_session_key(&transport_ok, &wire).unwrap();
    assert_eq!(key_digest(key_id, &pt), expected);

    let mut transport_bad = transport_ok.clone();
    transport_bad[0] ^= 0x01;
    let pt_bad = unwrap_session_key(&transport_bad, &wire).unwrap();
    assert_ne!(pt_bad, session_key);
    assert_ne!(key_digest(key_id, &pt_bad), expected);
}

#[test]
fn session_key_digest_is_bound_to_its_key_id() {
    let session_key = vec![0x5Au8; TRANSPORT_KEY_BYTES];
    let a = key_digest("bc490419-7d60-487f-adc1-4ddcc177c139", &session_key);
    let b = key_digest("bc490419-7d60-487f-adc1-4ddcc177c13a", &session_key);
    assert_ne!(a, b);
    assert_eq!(a.len(), 64);
}

#[test]
fn sae_authorization_only_accepts_served_saes() {
    let map = bindings(&[
        ("sae-local-1", "dkms-a"),
        ("sae-local-2", "dkms-a"),
        ("sae-elsewhere", "dkms-b"),
    ]);

    assert!(sae_served_locally(
        &map,
        "dkms-a",
        &SaeId::new("sae-local-1")
    ));
    assert!(!sae_served_locally(
        &map,
        "dkms-a",
        &SaeId::new("sae-elsewhere")
    ));
    assert!(!sae_served_locally(
        &map,
        "dkms-a",
        &SaeId::new("sae-ghost")
    ));
    assert!(!sae_served_locally(
        &Table::new(),
        "dkms-a",
        &SaeId::new("sae-local-1")
    ));
}

#[test]
fn otp_wrap_unwrap_roundtrip() {
    let transport = generate_session_keys(1, TRANSPORT_KEY_BYTES).remove(0).bytes;
    let k = b"this is a session key K".to_vec();
    let wire = wrap_session_key(&transport, &k).unwrap();
    assert_eq!(
        wire.len(),
        k.len(),
        "OTP ciphertext has same length as plaintext"
    );
    let pt = unwrap_session_key(&transport, &wire).unwrap();
    assert_eq!(pt, k);
}

#[test]
fn otp_rejects_short_transport_key() {
    let transport = vec![0u8; 8];
    let k = vec![0u8; 32];
    assert!(wrap_session_key(&transport, &k).is_err());
    assert_eq!(
        wrap_session_key(&transport, &k).unwrap_err(),
        "transport key too short for OTP (8 bytes, session key 32 bytes)"
    );
    assert_eq!(
        unwrap_session_key(&transport, &k).unwrap_err(),
        "transport key too short for OTP (8 bytes, ciphertext 32 bytes)"
    );
}

#[test]
fn a_peer_that_lost_our_transport_keys_is_detected() {
    let real_body = DkmsError::TransportKeyMissing {
        peer: "dkms-1".into(),
        key_id: "abc".into(),
    }
    .text();
    let rejected = DkmsError::PeerRejected {
        peer: "dkms-2".into(),
        status: 503,
        body: real_body,
    };
    assert_eq!(
        peer_with_stale_transport_buffer(&rejected),
        Some("dkms-2"),
        "the refusal names the peer whose keys have to go",
    );

    let otro = DkmsError::PeerRejected {
        peer: "dkms-2".into(),
        status: 429,
        body: "rate-limited".into(),
    };
    assert_eq!(peer_with_stale_transport_buffer(&otro), None);
    assert_eq!(
        peer_with_stale_transport_buffer(&DkmsError::PeerAckTimeout {
            peer: "dkms-2".into()
        }),
        None,
    );
}

fn request(number: u32, size: u32) -> Etsi014KeyRequest {
    Etsi014KeyRequest {
        number,
        size,
        ..Default::default()
    }
}

#[test]
fn request_limits_reject_what_status_says_is_too_much() {
    assert!(check_request_limits(&request(1, 256), 1).is_ok());
    assert!(check_request_limits(&request(MAX_KEY_PER_REQUEST, 256), 1).is_ok());
    assert!(check_request_limits(&request(MAX_KEY_PER_REQUEST + 1, 256), 1).is_err());
    assert!(check_request_limits(&request(1, 7), 1).is_err());
    for size in [MIN_KEY_SIZE_BITS - 8, MAX_KEY_SIZE_BITS + 8, 100_000] {
        assert!(
            check_request_limits(&request(1, size), 1).is_err(),
            "size {size} has to be refused"
        );
    }
    assert!(check_request_limits(&request(1, 256), MAX_SAE_ID_COUNT).is_ok());
    assert!(check_request_limits(&request(1, 256), MAX_SAE_ID_COUNT + 1).is_err());
}

#[test]
fn a_request_over_a_limit_is_told_which() {
    let text = |number: u32, size: u32, saes: usize| {
        check_request_limits(&request(number, size), saes).unwrap_err().text()
    };
    assert_eq!(
        text(65, 256, 1),
        "invalid request: number 65 exceeds max_key_per_request 64"
    );
    assert_eq!(text(1, 7, 1), "invalid request: size 7 is not a multiple of 8 bits");
    assert_eq!(text(1, 56, 1), "invalid request: size 56 outside [64, 4096] bits");
    assert_eq!(
        text(1, 256, 17),
        "invalid request: 17 destination SAEs exceeds max_SAE_ID_count 16"
    );
}

#[test]
fn enc_clear_empties_both_grades_and_counts() {
    let mut pool = BufferPool::new(8);
    let buf = pool.for_peer("dkms-2");
    for (i, g) in [KeyGrade::Qkd, KeyGrade::Pqc].into_iter().enumerate() {
        buf.enc(g)
            .try_push(TransportKey::new(
                KeyId::new(&format!("k{i}")),
                vec![0xAB; 32],
            ))
            .expect("there is room");
    }
    assert_eq!(buf.enc_len(), 2);
    assert_eq!(buf.enc_clear(), 2, "says how many it dropped");
    assert_eq!(buf.enc_len(), 0, "both grades are empty");
}

fn peer_cfg(endpoint: &str, orr: &str) -> PeerCfg {
    PeerCfg {
        endpoint: endpoint.into(),
        sni: None,
        orr_id: Some(orr.into()),
        transport: PeerTransport::Orr,
        max_hops: None,
        orr_path: None,
        security_level: None,
    }
}

fn peers(names: &[&str]) -> Table<PeerCfg> {
    let mut t = Table::new();
    for n in names {
        t.insert(n, peer_cfg("https://peer:1", "orr"));
    }
    t
}

fn node(me: &str, others: &[&str]) -> DkmsService {
    let cfg = DkmsConfig {
        node_id: me.into(),
        peers: peers(others),
        buffer: BufferCfg::default(),
        pending: PendingCfg::default(),
        sae: SaeCfg::default(),
        sae_bindings: bindings(&[
            ("alice", "dkms-a"),
            ("anna", "dkms-a"),
            ("bob", "dkms-b"),
            ("carol", "dkms-c"),
        ]),
        request: RequestCfg::default(),
        default_security_level: SecurityLevel::QkdPrefer,
    };
    let registry = PeerRegistry::from_config(peers(others));
    DkmsService::new(cfg, registry, TransportE2eCfg::default(), true)
}

fn share(a: &mut DkmsService, b: &mut DkmsService, n: usize, grade: KeyGrade) {
    let (name_a, name_b) = (a.cfg.node_id.clone(), b.cfg.node_id.clone());
    for i in 0..n {
        let id = format!("{}-{}-{:?}-{}", name_a, name_b, grade, i);
        let bytes = vec![i as u8 + 1; 64];
        a.pool
            .for_peer(&name_b)
            .enc(grade)
            .try_push(TransportKey::new(KeyId::new(&id), bytes.clone()))
            .unwrap();
        b.pool
            .for_peer(&name_a)
            .dec()
            .try_push(TransportKey::new(KeyId::new(&id), bytes))
            .unwrap();
    }
}

fn sae(s: &str) -> SaeId {
    SaeId::new(s)
}

fn nodes(saes: &[SaeId]) -> Vec<NodeId> {
    saes.iter()
        .map(|s| match s.as_str() {
            "alice" | "anna" => NodeId::new("dkms-a"),
            "bob" => NodeId::new("dkms-b"),
            _ => NodeId::new("dkms-c"),
        })
        .collect()
}

#[test]
fn a_session_key_reaches_every_application_it_is_for_and_no_other() {
    let mut a = node("dkms-a", &["dkms-b"]);
    let mut b = node("dkms-b", &["dkms-a"]);
    share(&mut a, &mut b, 3, KeyGrade::Qkd);

    let mut req = request(2, 256);
    req.additional_slave_sae_ids = Some(vec!["anna".into(), "bob".into()]);
    let targets = a.enc_targets(&sae("alice"), &sae("bob"), &req, Some(" anna ,, bob")).unwrap();
    assert_eq!(targets, vec![sae("anna"), sae("bob")]);
    let plan = a.plan_enc_keys(&req, &targets, &nodes(&targets)).unwrap();
    assert_eq!(plan.local, vec![sae("anna")]);
    assert_eq!(plan.remote.len(), 1);
    assert_eq!(plan.remote[0].saes, vec![sae("bob")]);
    assert_eq!(plan.cost_per_peer, 2);
    assert_eq!(plan.size_bytes, 32);

    let (keys, out) = a.begin_distribution(&sae("alice"), &plan, 1_000).unwrap();
    assert_eq!(out.len(), 1);
    assert_eq!(out[0].node.as_str(), "dkms-b");
    assert_eq!(out[0].envelope.ack_callback_url, "https://dkms-a/kmapi/v1/ext_keys/ack");
    assert_eq!(out[0].envelope.ttl_seconds, Some(86_400));
    assert_eq!(a.pool.enc_len("dkms-b"), 1, "one transport key for each session key");
    assert_ne!(out[0].envelope.keys[0].value, keys[0].bytes, "it travels encrypted");

    let ack = b
        .handle_incoming_ext_keys(&NodeId::new("dkms-a"), &out[0].envelope, 1_000)
        .unwrap();
    let ids: Vec<String> = keys.iter().map(|k| k.id.as_str().to_string()).collect();
    assert_eq!(ack.key_ids, ids);
    assert_eq!(ack.ack_status, Etsi020AckStatus::Relayed);
    assert_eq!(ack.initiator_sae_id, "alice");
    assert_eq!(ack.target_sae_id, "bob");
    assert_eq!(b.pool.dec_len("dkms-a"), 1);

    let got = a.finish_distribution(&keys, &vec![]).unwrap();
    assert_eq!(got.len(), 2);
    let bob = b.handle_dec_keys(&sae("bob"), &ids, 2_000).unwrap();
    let anna = a.handle_dec_keys(&sae("anna"), &ids, 2_000).unwrap();
    for i in 0..2 {
        assert_eq!(got[i].key_id, ids[i]);
        assert_eq!(bob[i].key, got[i].key);
        assert_eq!(anna[i].key, got[i].key);
        assert_eq!(got[i].key.len(), 32);
    }
    assert!(matches!(
        b.handle_dec_keys(&sae("bob"), &ids, 2_000),
        Err(DkmsError::KeyNotAuthorized { .. })
    ));
    assert!(matches!(
        b.handle_dec_keys(&sae("alice"), &ids, 2_000),
        Err(DkmsError::UnknownSae(_))
    ));
}

#[test]
fn an_application_of_another_node_is_not_served() {
    let a = node("dkms-a", &["dkms-b"]);
    let e = a.enc_targets(&sae("bob"), &sae("alice"), &request(1, 256), None).unwrap_err();
    assert_eq!(e.text(), "unknown sae: bob");
    assert_eq!(
        a.status_for(&sae("bob"), &sae("alice"), None).unwrap_err().text(),
        "unknown sae: bob"
    );
    assert!(a.require_known_peer(&NodeId::new("dkms-b")).is_ok());
    assert!(a.require_known_peer(&NodeId::new("dkms-z")).is_err());
}

#[test]
fn authorization_can_be_switched_off() {
    let mut a = node("dkms-a", &["dkms-b"]);
    a.cfg.sae.enforce_authorization = false;
    assert!(a.enc_targets(&sae("ghost"), &sae("alice"), &request(1, 256), None).is_ok());
}

#[test]
fn status_says_what_there_is_and_what_may_be_asked_for() {
    let mut a = node("dkms-a", &["dkms-b"]);
    let mut b = node("dkms-b", &["dkms-a"]);
    share(&mut a, &mut b, 2, KeyGrade::Pqc);
    let s = a
        .status_for(&sae("alice"), &sae("bob"), Some(NodeId::new("dkms-b")))
        .unwrap();
    assert_eq!(s.source_kme_id, "dkms-a");
    assert_eq!(s.target_kme_id, "dkms-b");
    assert_eq!(s.master_sae_id, "alice");
    assert_eq!(s.slave_sae_id, "bob");
    assert_eq!((s.key_size, s.stored_key_count, s.max_key_count), (256, 2, 4096));
    assert_eq!(
        (s.max_key_per_request, s.max_key_size, s.min_key_size, s.max_sae_id_count),
        (64, 4096, 64, 16)
    );
    let s = a.status_for(&sae("alice"), &sae("bob"), None).unwrap();
    assert_eq!(s.target_kme_id, "dkms-a");
    assert_eq!(s.stored_key_count, 0);
}

fn strict(req: &mut Etsi014KeyRequest) {
    req.extension_mandatory = Some(vec![Extensions {
        entries: vec![("security_level".into(), ExtValue::Text("strict_qkd".into()))],
    }]);
}

#[test]
fn a_strict_request_is_served_with_qkd_keys_only() {
    let mut a = node("dkms-a", &["dkms-b"]);
    let mut b = node("dkms-b", &["dkms-a"]);
    share(&mut a, &mut b, 4, KeyGrade::Pqc);
    let mut req = request(1, 256);
    strict(&mut req);
    let targets = a.enc_targets(&sae("alice"), &sae("bob"), &req, None).unwrap();
    let plan = a.plan_enc_keys(&req, &targets, &nodes(&targets)).unwrap();
    assert_eq!(plan.level, Some(SecurityLevel::StrictQkd));
    let e = a.begin_distribution(&sae("alice"), &plan, 0).map(|_| ()).unwrap_err();
    assert_eq!(e.text(), "transport buffer empty for peer dkms-b");
    assert_eq!(a.pool.enc_len("dkms-b"), 4, "the other keys are left alone");
    share(&mut a, &mut b, 1, KeyGrade::Qkd);
    let (_, out) = a.begin_distribution(&sae("alice"), &plan, 0).unwrap();
    assert_eq!(
        out[0].envelope.keys[0].transport_key_id.as_deref(),
        Some("dkms-a-dkms-b-Qkd-0")
    );
}

fn generator(me: &str) -> Generator {
    Generator::new(me, "00000000000000aa", &GeneratorCfg::default(), Some("10.0.0.1:1".into()), 4)
}

#[test]
fn a_strict_request_is_refused_where_there_is_no_qkd_path() {
    let mut a = node("dkms-a", &["dkms-b"]);
    let mut g = generator("dkms-a");
    g.set_paths(&vec![("dkms-b".into(), true), ("dkms-b".into(), false)]);
    a.set_control(Some(g), None);
    let mut req = request(1, 256);
    strict(&mut req);
    let targets = vec![sae("bob")];
    let e = a.plan_enc_keys(&req, &targets, &nodes(&targets)).map(|_| ()).unwrap_err();
    assert_eq!(
        e.text(),
        "invalid request: strict_qkd requested but SDN reports no QKD path to dkms dkms-b"
    );
    assert!(a.plan_enc_keys(&request(1, 256), &targets, &nodes(&targets)).is_ok());
}

#[test]
fn a_request_for_too_many_nodes_is_refused() {
    let mut a = node("dkms-a", &["dkms-b"]);
    a.cfg.request.max_concurrent_peers = 1;
    let targets = vec![sae("alice"), sae("bob"), sae("carol")];
    let e = a
        .plan_enc_keys(&request(1, 256), &targets, &nodes(&targets))
        .map(|_| ())
        .unwrap_err();
    assert_eq!(
        e.text(),
        "invalid request: too many destination DKMSs (2), max 1"
    );
}

#[test]
fn a_node_that_is_not_configured_or_cannot_be_reached_is_an_error() {
    let mut a = node("dkms-a", &[]);
    let mut b = node("dkms-b", &["dkms-a"]);
    share(&mut a, &mut b, 2, KeyGrade::Qkd);
    let targets = vec![sae("bob")];
    let plan = a.plan_enc_keys(&request(1, 256), &targets, &nodes(&targets)).unwrap();
    let e = a.begin_distribution(&sae("alice"), &plan, 0).map(|_| ()).unwrap_err();
    assert_eq!(e.text(), "invalid request: peer dkms dkms-b not configured");
    a.has_peer_client = false;
    let e = a.begin_distribution(&sae("alice"), &plan, 0).map(|_| ()).unwrap_err();
    assert!(e.text().contains("peer_client missing"));
    assert_eq!(a.pool.enc_len("dkms-b"), 0, "transport keys that were taken stay taken");
}

#[test]
fn a_short_transport_key_is_not_used() {
    let mut a = node("dkms-a", &["dkms-b"]);
    a.pool
        .for_peer("dkms-b")
        .enc(KeyGrade::Qkd)
        .try_push(TransportKey::new(KeyId::new("t"), vec![1; 31]))
        .unwrap();
    a.pool
        .for_peer("dkms-b")
        .enc(KeyGrade::Qkd)
        .try_push(TransportKey::new(KeyId::new("u"), vec![1; 32]))
        .unwrap();
    let targets = vec![sae("bob")];
    let plan = a.plan_enc_keys(&request(1, 512), &targets, &nodes(&targets)).unwrap();
    let e = a.begin_distribution(&sae("alice"), &plan, 0).map(|_| ()).unwrap_err();
    assert_eq!(e.text(), "crypto: transport key too short (31 bytes, need 32)");
    let e = a.begin_distribution(&sae("alice"), &plan, 0).map(|_| ()).unwrap_err();
    assert_eq!(
        e.text(),
        "crypto: transport key too short for OTP (32 bytes, session key 64 bytes)"
    );
}

#[test]
fn a_failed_distribution_is_taken_back() {
    let mut a = node("dkms-a", &["dkms-b"]);
    let mut b = node("dkms-b", &["dkms-a"]);
    share(&mut a, &mut b, 5, KeyGrade::Qkd);
    let targets = vec![sae("anna"), sae("bob")];
    let plan = a.plan_enc_keys(&request(1, 256), &targets, &nodes(&targets)).unwrap();
    let (keys, _) = a.begin_distribution(&sae("alice"), &plan, 0).unwrap();
    assert_eq!(a.pending.len(), 1);
    let lost = DkmsError::PeerRejected {
        peer: "dkms-b".into(),
        status: 503,
        body: "transport key x not in buffer_dec[dkms-a]".into(),
    };
    let e = a.finish_distribution(&keys, &vec![lost]).map(|_| ()).unwrap_err();
    assert_eq!(
        e.text(),
        "peer dkms peer dkms dkms-b rejected: HTTP 503 \u{2014} transport key x not in \
         buffer_dec[dkms-a] unreachable: one or more peer DKMSs failed during key distribution"
    );
    assert_eq!(a.pending.len(), 0);
    assert_eq!(a.pool.enc_len("dkms-b"), 0, "keys that the peer has lost are dropped");
    let id = vec![keys[0].id.as_str().to_string()];
    assert!(a.handle_dec_keys(&sae("anna"), &id, 0).is_err());
}

#[test]
fn a_request_is_charged_and_refunded() {
    let mut a = node("dkms-a", &["dkms-b"]);
    let targets = vec![sae("bob"), sae("carol")];
    let plan = a.plan_enc_keys(&request(64, 4096), &targets, &nodes(&targets)).unwrap();
    assert_eq!(plan.cost_per_peer, 16 * 64);
    let e = a.charge(&sae("alice"), &plan, 0).unwrap_err();
    assert_eq!(
        e.text(),
        "rate-limited: sae alice requested 2048 tokens, 400 available"
    );
    let small = a.plan_enc_keys(&request(64, 256), &targets, &nodes(&targets)).unwrap();
    for _ in 0..3 {
        a.charge(&sae("alice"), &small, 0).unwrap();
    }
    assert!(a.charge(&sae("alice"), &small, 0).is_err());
    a.refund(&sae("alice"), &small, 0);
    a.charge(&sae("alice"), &small, 0).unwrap();
    assert!(a.charge(&sae("alice"), &small, 1_270 * MILLISECOND).is_ok(), "tokens come in with time");
}

fn consignment(keys: Vec<Etsi020Key>) -> Etsi020ExtKeyContainer {
    Etsi020ExtKeyContainer {
        keys,
        initiator_sae_id: "alice".into(),
        target_sae_ids: vec!["bob".into()],
        ack_callback_url: String::new(),
        ttl_seconds: Some(1),
    }
}

fn sealed_key(id: &str, transport: Option<&str>, digest: Option<String>) -> Etsi020Key {
    Etsi020Key {
        key_id: id.into(),
        value: vec![3; 16],
        transport_key_id: transport.map(|t| t.into()),
        session_key_digest: digest,
    }
}

#[test]
fn session_keys_from_another_node_are_checked_before_they_are_kept() {
    let mut b = node("dkms-b", &["dkms-a"]);
    let from = NodeId::new("dkms-a");
    for t in ["t1", "t2", "t3"] {
        b.pool
            .for_peer("dkms-a")
            .dec()
            .try_push(TransportKey::new(KeyId::new(t), vec![1; 16]))
            .unwrap();
    }
    let e = b
        .handle_incoming_ext_keys(&from, &consignment(vec![sealed_key("k", None, None)]), 0)
        .map(|_| ())
        .unwrap_err();
    assert_eq!(
        e.text(),
        "invalid request: Etsi020Key.extension.transport_key_id missing"
    );
    let e = b
        .handle_incoming_ext_keys(&from, &consignment(vec![sealed_key("k", Some("t9"), None)]), 0)
        .map(|_| ())
        .unwrap_err();
    assert_eq!(e.text(), "transport key t9 not in buffer_dec[dkms-a]");

    let good = Some(key_digest("k2", &[2; 16]));
    let body = consignment(vec![
        sealed_key("k1", Some("t1"), Some("wrong".into())),
        sealed_key("k2", Some("t2"), good),
        sealed_key("k3", Some("t3"), None),
    ]);
    let ack = b.handle_incoming_ext_keys(&from, &body, 0).unwrap();
    assert_eq!(ack.key_ids, vec!["k2".to_string(), "k3".to_string()]);
    assert_eq!(b.flow.peer("dkms-a").recv_corrupt, 1);
    assert_eq!(b.pool.dec_len("dkms-a"), 0, "a transport key is used once");
    let got = b.handle_dec_keys(&sae("bob"), &vec!["k2".into()], SECOND - 1).unwrap();
    assert_eq!(got[0].key, vec![2; 16]);
    assert!(matches!(
        b.handle_dec_keys(&sae("bob"), &vec!["k3".into()], SECOND),
        Err(DkmsError::KeyExpired)
    ));
    b.pending.sweep(SECOND);
    assert!(matches!(
        b.handle_dec_keys(&sae("bob"), &vec!["k3".into()], SECOND),
        Err(DkmsError::KeyNotAuthorized { .. })
    ));
}

#[test]
fn a_transport_key_that_is_too_short_is_an_error_at_the_other_end_too() {
    let mut b = node("dkms-b", &["dkms-a"]);
    b.pool
        .for_peer("dkms-a")
        .dec()
        .try_push(TransportKey::new(KeyId::new("t1"), vec![1; 8]))
        .unwrap();
    let e = b
        .handle_incoming_ext_keys(
            &NodeId::new("dkms-a"),
            &consignment(vec![sealed_key("k", Some("t1"), None)]),
            0,
        )
        .map(|_| ())
        .unwrap_err();
    assert_eq!(
        e.text(),
        "crypto: transport key too short for OTP (8 bytes, ciphertext 16 bytes)"
    );
}

fn connected() -> (DkmsService, DkmsService) {
    let mut a = node("dkms-a", &["dkms-b"]);
    let mut b = node("dkms-b", &["dkms-a"]);
    a.set_control(Some(generator("dkms-a")), Some(BatchedAckClient::new(2)));
    b.set_control(Some(generator("dkms-b")), Some(BatchedAckClient::new(2)));
    let req = a.e2e.begin_request("dkms-b").unwrap();
    let resp = b.e2e.respond("dkms-a", &req).unwrap();
    a.e2e.complete_request("dkms-b", &resp).unwrap();
    (a, b)
}

fn emit(a: &mut DkmsService, now: u64) -> (KeyId, Headers, Vec<u8>, Vec<u8>) {
    let g = a.generator.as_mut().unwrap();
    let mut e = g.begin_emit(&a.peers, &mut a.flow, "dkms-b", now, 1_700_000_000_000).unwrap();
    let plain = e.payload.clone();
    seal_emission(&mut a.e2e, "dkms-b", &mut e).unwrap();
    assert_ne!(e.payload, plain);
    (e.key_id, e.header, e.payload, plain)
}

#[test]
fn a_transport_key_is_emitted_delivered_and_acknowledged() {
    let (mut a, mut b) = connected();
    let (id1, header, payload, plain) = emit(&mut a, 0);
    assert_eq!(header.get("msg_type"), Some("DKMS_BUFFER"));
    assert_eq!(header.get("key_id"), Some(id1.as_str()));
    assert_eq!(header.get("key_size_bits"), Some("256"));
    assert_eq!(header.get("timestamp_ms"), Some("1700000000000"));
    assert_eq!(header.get("ack_endpoint"), Some("10.0.0.1:1"));
    assert_eq!(
        header.get("request_id").unwrap(),
        format!("gen-{}", id1.as_str())
    );
    assert_eq!(header.get("key_digest").unwrap(), key_digest(id1.as_str(), &plain));
    let d = b.handle_orr_delivery(&header, &payload, 0).unwrap();
    assert!(matches!(d, Delivery::Stored { batch: None }));
    let (id2, header, payload, _) = emit(&mut a, 0);
    let batch = match b.handle_orr_delivery(&header, &payload, 0).unwrap() {
        Delivery::Stored { batch: Some(v) } => v,
        _ => panic!("the second one fills the batch"),
    };
    assert_eq!(batch, vec![id1.as_str().to_string(), id2.as_str().to_string()]);
    assert_eq!(b.pool.dec_len("dkms-a"), 2);
    assert_eq!(b.flow.peer("dkms-a").recv, 2);
    assert_eq!(b.flow.endpoint_of("dkms-a").as_deref(), Some("10.0.0.1:1"));

    let peer = NodeId::new("dkms-b");
    assert_eq!(a.handle_incoming_ack(&peer, &vec![id1.clone(), id2, KeyId::new("?")]), 2);
    assert_eq!(a.handle_incoming_ack(&peer, &vec![id1.clone()]), 0);
    assert_eq!(a.pool.enc_len("dkms-b"), 2);
    assert_eq!(a.flow.peer("dkms-b").acked, 2);
    let sent = a.pool.for_peer("dkms-b").enc_pop_pref(&vec![KeyGrade::Qkd]).unwrap();
    let received = b.pool.for_peer("dkms-a").dec().take_by_id(&id1).unwrap();
    assert_eq!(sent.id, id1);
    assert_eq!(sent.bytes, plain);
    assert_eq!(received.bytes, plain);

    assert!(matches!(
        b.handle_orr_delivery(&header, &payload, 0).unwrap(),
        Delivery::Replayed
    ));
    assert_eq!(b.flow.peer("dkms-a").recv_replayed, 1);
}

#[test]
fn deliveries_that_cannot_be_trusted_leave_no_key_behind() {
    let (mut a, mut b) = connected();
    let (_, header, mut payload, _) = emit(&mut a, 0);
    payload[0] ^= 1;
    assert!(matches!(
        b.handle_orr_delivery(&header, &payload, 0).unwrap(),
        Delivery::Corrupt
    ));
    assert_eq!(b.flow.peer("dkms-a").recv_corrupt, 1);
    let mut c = node("dkms-b", &["dkms-a"]);
    payload[0] ^= 1;
    assert!(matches!(
        c.handle_orr_delivery(&header, &payload, 0).unwrap(),
        Delivery::UnknownEpoch { start_agreement: true, .. }
    ));
    assert!(matches!(
        c.handle_orr_delivery(&header, &payload, 1).unwrap(),
        Delivery::UnknownEpoch { start_agreement: false, .. }
    ));
    assert_eq!(c.flow.peer("dkms-a").recv_no_epoch, 2);
    assert_eq!(b.pool.dec_len("dkms-a") + c.pool.dec_len("dkms-a"), 0);
    assert!(matches!(
        b.handle_orr_delivery(&Headers::new(), &payload, 0).unwrap(),
        Delivery::NotForUs
    ));
}

#[test]
fn malformed_deliveries_are_refused() {
    let (_, mut b) = connected();
    let mut h = Headers::new();
    h.insert("msg_type", "DKMS_BUFFER");
    let text = |b: &mut DkmsService, h: &Headers| {
        b.handle_orr_delivery(h, &[0; 3], 0).map(|_| ()).unwrap_err().text()
    };
    assert_eq!(text(&mut b, &h), "invalid request: orr buffer delivery missing key_id");
    h.insert("key_id", "k");
    assert_eq!(
        text(&mut b, &h),
        "invalid request: orr buffer delivery missing sae_origin"
    );
    h.insert("sae_origin", "dkms-a");
    h.insert("key_size_bits", "25");
    assert_eq!(
        text(&mut b, &h),
        "invalid request: orr buffer delivery k: payload 3 bytes, header 25 bits"
    );
    h.insert("key_size_bits", "17");
    assert!(b.handle_orr_delivery(&h, &[0; 3], 0).is_ok());
}

#[test]
fn a_restart_of_a_peer_throws_away_what_was_shared_with_it() {
    let (mut a, mut b) = connected();
    let (_, _, _, _) = emit(&mut a, 0);
    share(&mut a, &mut b, 3, KeyGrade::Qkd);
    a.pool
        .for_peer("dkms-b")
        .dec()
        .try_push(TransportKey::new(KeyId::new("d"), vec![1; 32]))
        .unwrap();
    assert_eq!(a.note_peer_incarnation("dkms-b", "1", 0), None);
    assert_eq!(
        a.note_peer_incarnation("dkms-b", "2", 1),
        Some(Forgotten { enc: 3, dec: 1, ack_pending: 1 })
    );
    assert_eq!(a.pool.enc_len("dkms-b"), 0);
    assert_eq!(a.pool.dec_len("dkms-b"), 0);
    assert_eq!(a.note_peer_incarnation("dkms-b", "3", 2), None, "too soon");
    assert!(a.note_peer_incarnation("dkms-b", "4", 30 * SECOND + 1).is_some());
}

#[test]
fn keys_are_acknowledged_under_the_certificate_where_no_address_is_announced() {
    let (mut a, mut b) = connected();
    let mut cfg = GeneratorCfg::default();
    cfg.ack_timeout_ms = 10;
    let silent = Generator::new("dkms-a", "00000000000000aa", &cfg, None, 4);
    a.set_control(Some(silent), None);
    let (_, header, payload, _) = emit(&mut a, 0);
    assert_eq!(a.flow.peer("dkms-b").ack_no_endpoint, 1);
    assert!(header.get("ack_endpoint").is_none());
    assert!(matches!(
        b.handle_orr_delivery(&header, &payload, 0).unwrap(),
        Delivery::Stored { batch: None }
    ));
    assert_eq!(b.flow.peer("dkms-a").ack_no_endpoint, 1);
    b.set_control(None, Some(BatchedAckClient::with_transport(1, true)));
    let (id, header, payload, _) = emit(&mut a, 0);
    match b.handle_orr_delivery(&header, &payload, 0).unwrap() {
        Delivery::Stored { batch: Some(v) } => assert_eq!(v, vec![id.as_str().to_string()]),
        _ => panic!("a batch of one"),
    }
    let reaped = a.generator.as_mut().unwrap().reap(&mut a.flow, 10 * MILLISECOND);
    assert_eq!(reaped, vec![("dkms-b".to_string(), 2)]);
    assert_eq!(a.flow.peer("dkms-b").expired, 2);
    assert_eq!(a.handle_incoming_ack(&NodeId::new("dkms-b"), &vec![id]), 0);
}

#[test]
fn operators_register_drain_and_wipe() {
    let mut a = node("dkms-a", &["dkms-b"]);
    let mut b = node("dkms-b", &["dkms-a"]);
    share(&mut a, &mut b, 2, KeyGrade::Qkd);
    let args = |id: &str| RegisterArgs {
        sae_id: id.into(),
        rate_keys_per_sec: 0,
        burst_keys: 0,
    };
    let id = a.register_sae(&args("alice"), 0).unwrap();
    assert_eq!(id.len(), 36);
    assert_eq!(
        a.register_sae(&args(""), 0).unwrap_err().text(),
        "invalid argument: sae_id required"
    );
    assert!(a.buckets.try_consume(&sae("alice"), 1, 0).is_ok());
    assert_eq!(a.buckets.try_consume(&sae("alice"), 1, SECOND - 1), Err(0));
    assert!(a.buckets.try_consume(&sae("alice"), 1, SECOND).is_ok());
    assert_eq!(a.buffer_state(Some(NodeId::new("dkms-b"))), (2, 0));
    assert_eq!(b.buffer_state(Some(NodeId::new("dkms-a"))), (0, 2));
    assert_eq!(b.buffer_state(None), (0, 0));
    assert_eq!(a.begin_drain(), 0);
    assert!(a.admission.enter().is_err());
    a.wipe();
    assert_eq!(a.buffer_state(Some(NodeId::new("dkms-b"))), (0, 0));
}

#[test]
fn an_agreement_is_not_started_without_a_client_or_with_a_stranger() {
    let (mut a, _) = connected();
    let (_, header, payload, _) = emit(&mut a, 0);
    let mut c = node("dkms-b", &[]);
    let flag = |c: &mut DkmsService, now: u64| match c.handle_orr_delivery(&header, &payload, now) {
        Ok(Delivery::UnknownEpoch { start_agreement, .. }) => start_agreement,
        _ => panic!("no epoch is held"),
    };
    assert!(!flag(&mut c, 0), "the peer is not known");
    c.peers = PeerRegistry::from_config(peers(&["dkms-a"]));
    c.has_peer_client = false;
    assert!(!flag(&mut c, 1), "there is no client");
    c.has_peer_client = true;
    assert!(flag(&mut c, 2), "nothing was noted before");
    assert!(!flag(&mut c, 3), "one is under way");
    assert!(!c.request_agreement("dkms-x", 0));
}

#[test]
fn a_failed_distribution_costs_nothing() {
    let mut a = node("dkms-a", &["dkms-b"]);
    let mut b = node("dkms-b", &["dkms-a"]);
    share(&mut a, &mut b, 64, KeyGrade::Qkd);
    let targets = vec![sae("anna"), sae("bob")];
    let plan = a.plan_enc_keys(&request(64, 256), &targets, &nodes(&targets)).unwrap();
    assert_eq!(plan.cost_per_peer, 64);
    let large = a.plan_enc_keys(&request(64, 1536), &targets, &nodes(&targets)).unwrap();
    assert_eq!(large.cost_per_peer, 6 * 64);
    let step = admission_step(&plan, false);
    a.charge(&sae("alice"), &plan, 0).unwrap();
    assert!(a.charge(&sae("alice"), &large, 0).is_err(), "400 tokens there are at most");
    let (keys, _) = a.begin_distribution(&sae("alice"), &plan, 0).unwrap();
    assert_eq!(a.pending.len(), 64);
    let failures = vec![DkmsError::Other("down".to_string())];
    let settled = a.settle_distribution(&sae("alice"), &plan, &step, &keys, &failures, 0);
    assert!(matches!(settled, Err(DkmsError::PeerUnreachable { .. })));
    assert_eq!(a.pending.len(), 0);
    a.charge(&sae("alice"), &large, 0).unwrap();
}

#[test]
fn a_distribution_that_succeeded_is_paid_for() {
    let mut a = node("dkms-a", &["dkms-b"]);
    let mut b = node("dkms-b", &["dkms-a"]);
    share(&mut a, &mut b, 64, KeyGrade::Qkd);
    let targets = vec![sae("bob")];
    let plan = a.plan_enc_keys(&request(64, 256), &targets, &nodes(&targets)).unwrap();
    let large = a.plan_enc_keys(&request(64, 1536), &targets, &nodes(&targets)).unwrap();
    let step = admission_step(&plan, false);
    a.charge(&sae("alice"), &plan, 0).unwrap();
    let (keys, _) = a.begin_distribution(&sae("alice"), &plan, 0).unwrap();
    let settled = a.settle_distribution(&sae("alice"), &plan, &step, &keys, &vec![], 0).unwrap();
    assert_eq!(settled.len(), 64);
    assert_eq!(settled[0].key, keys[0].bytes);
    assert!(a.charge(&sae("alice"), &large, 0).is_err(), "nothing was given back");
}
