use dkms::ack_socket::{
    ack_from_is_processable, classify_line, count_send, shown, take_frame, AckClient, AckFrame,
    AckRoute, BatchedAckClient, LineRead, MAX_ACK_FROM,
};
use dkms::admission::{drain_grace_secs, Admission};
use dkms::buffer::{BufferRegistry, BufferedKey};
use dkms::buffers::{BufferPool, KeyBuffer, PeerBuffers, TransportKey};
use dkms::clock::{MILLISECOND, SECOND};
use dkms::config::{GeneratorCfg, PeerCfg, PeerTransport};
use dkms::demand_window::{DemandWindow, Elapsed};
use dkms::error::DkmsError;
use dkms::flow_stats::{FlowStats, PeerFlow};
use dkms::generator::{
    demand_period_ms, demand_wait_ms, diagnose, known_peers, next_backoff, summarise, Cause,
    Generator,
};
use dkms::ids::{KeyId, NodeId, SaeId};
use dkms::peers::PeerRegistry;
use dkms::pending::PendingStore;
use dkms::priority::{classify, BufferQos};
use dkms::qrng_adapter::{Mode, QrngAdapter};
use dkms::sae_activity::SaeActivity;
use dkms::sae_binding::{binding_ttl_secs, lookup_failure, sdn_binding, StaticSaeResolver};
use dkms::scheduler::Scheduler;
use dkms::security::{KeyGrade, SecurityLevel};
use dkms::southbound::{
    ack_port, derive_sdn_http_url, port_of, subscriber_id, upgrade_endpoint,
    wants_authenticated_acks,
};
use dkms::table::Table;
use dkms::tls_stats::TlsStats;
use dkms::token_bucket::{compute_cost, SaeBuckets};

#[test]
fn ack_from_gate_rejects_unknown_or_overlong() {
    assert!(ack_from_is_processable("dkms-2", true));
    assert!(!ack_from_is_processable("dkms-9", false));
    let huge = "x".repeat(MAX_ACK_FROM + 1);
    assert!(!ack_from_is_processable(&huge, true));
}

#[test]
fn a_line_that_does_not_end_is_too_long() {
    assert!(matches!(classify_line(""), LineRead::End));
    assert!(matches!(classify_line("AAAA"), LineRead::TooLong));
    match classify_line(" \t{\"from\":\"d\"}\u{a0}\r\n") {
        LineRead::Line(t) => assert_eq!(t, "{\"from\":\"d\"}"),
        _ => panic!("a line"),
    }
    match classify_line("\n") {
        LineRead::Line(t) => assert_eq!(t, ""),
        _ => panic!("an empty line"),
    }
    assert_eq!(shown("short"), "short");
    assert_eq!(shown(&"\u{e1}".repeat(300)), "\u{e1}".repeat(200));
}

fn peer_cfg(endpoint: &str) -> PeerCfg {
    PeerCfg {
        endpoint: endpoint.into(),
        sni: None,
        orr_id: Some("orr_2".into()),
        transport: PeerTransport::Orr,
        max_hops: None,
        orr_path: None,
        security_level: None,
    }
}

fn registry(peers: &[(&str, &str)]) -> PeerRegistry {
    let mut t = Table::new();
    for (p, e) in peers {
        t.insert(p, peer_cfg(e));
    }
    PeerRegistry::from_config(t)
}

fn generator(capacity: usize) -> Generator {
    let cfg = GeneratorCfg::default();
    Generator::new("dkms-1", "00000000000000aa", &cfg, Some("10.0.0.1:9".into()), capacity)
}

#[test]
fn acknowledged_keys_fill_the_buffer_of_their_grade() {
    let mut g = generator(10);
    let mut pool = BufferPool::new(10);
    let mut stats = FlowStats::new();
    let peers = registry(&[("dkms-2", "https://p")]);
    g.set_paths(&vec![("dkms-2".into(), false)]);
    assert_eq!(g.qkd_available("dkms-2"), Some(false));
    assert_eq!(g.qkd_available("dkms-3"), None);
    let e = g
        .begin_emit_with(&peers, &mut stats, "dkms-2", 5, 7, "id-1", vec![9; 32])
        .unwrap();
    assert_eq!(e.grade, KeyGrade::Pqc);
    assert_eq!(e.dest_orr, "orr_2");
    assert_eq!(e.header.get("incarnation"), Some("00000000000000aa"));
    g.finish_emit(&mut stats, "dkms-2", &e.key_id, true);
    assert_eq!(stats.peer("dkms-2").emitted, 1);
    assert!(!g.on_ack(&mut pool, &mut stats, "dkms-3", &e.key_id));
    assert!(!g.on_ack(&mut pool, &mut stats, "dkms-2", &KeyId::new("id-2")));
    assert!(g.on_ack(&mut pool, &mut stats, "dkms-2", &e.key_id));
    assert!(!g.on_ack(&mut pool, &mut stats, "dkms-2", &e.key_id), "only once");
    assert_eq!(g.filled("dkms-2"), 1);
    assert_eq!(stats.peer("dkms-3").ack_miss_unknown_peer, 1);
    assert_eq!(stats.peer("dkms-2").ack_miss_unknown_key, 1);
    assert_eq!(stats.peer("dkms-2").ack_miss_unknown_peer, 1);
    let key = pool.for_peer("dkms-2").enc(KeyGrade::Pqc).pop_oldest().unwrap();
    assert_eq!((key.id.as_str(), key.bytes), ("id-1", vec![9; 32]));
}

#[test]
fn keys_are_not_sent_to_a_peer_without_a_relay_or_with_enough_of_them() {
    let mut g = generator(2);
    let pool = BufferPool::new(2);
    let mut stats = FlowStats::new();
    let peers = registry(&[("dkms-2", "https://p")]);
    assert!(g.begin_emit(&peers, &mut stats, "dkms-9", 0, 0).is_none());
    assert_eq!(g.emissions_due(&pool, "dkms-2", 7), 7);
    let a = g.begin_emit(&peers, &mut stats, "dkms-2", 0, 0).unwrap();
    let b = g.begin_emit(&peers, &mut stats, "dkms-2", 0, 0).unwrap();
    assert_ne!(a.key_id, b.key_id);
    assert_ne!(a.payload, b.payload);
    assert_eq!(a.payload.len(), 32);
    assert_eq!(g.emissions_due(&pool, "dkms-2", 7), 0);
    g.finish_emit(&mut stats, "dkms-2", &b.key_id, false);
    assert_eq!(stats.peer("dkms-2").emit_failed, 1);
    assert_eq!(g.emissions_due(&pool, "dkms-2", 7), 7, "what failed is not waited for");
}

#[test]
fn a_full_buffer_drops_the_key() {
    let mut g = generator(10);
    let mut pool = BufferPool::bounded(0);
    assert_eq!(pool.capacity(), 0);
    let mut stats = FlowStats::new();
    let peers = registry(&[("dkms-2", "https://p")]);
    let e = g.begin_emit(&peers, &mut stats, "dkms-2", 0, 0).unwrap();
    assert!(!g.on_ack(&mut pool, &mut stats, "dkms-2", &e.key_id));
    assert_eq!(stats.peer("dkms-2").enc_full, 1);
    assert_eq!(stats.peer("dkms-2").acked, 0);
}

#[test]
fn a_frame_is_taken_from_known_peers_only() {
    let mut g = generator(10);
    let mut pool = BufferPool::new(10);
    let mut stats = FlowStats::new();
    let peers = registry(&[("dkms-2", "https://p")]);
    let e = g.begin_emit(&peers, &mut stats, "dkms-2", 0, 0).unwrap();
    let frame = AckFrame {
        from: "dkms-2".into(),
        key_ids: vec![e.key_id.as_str().into(), "other".into()],
    };
    assert_eq!(take_frame(&mut g, &mut pool, &mut stats, &frame, false), None);
    assert_eq!(
        take_frame(&mut g, &mut pool, &mut stats, &frame, true),
        Some((1, 1))
    );
    assert_eq!(pool.enc_len("dkms-2"), 1);
}

#[test]
fn acknowledgements_go_out_in_batches() {
    let mut c = BatchedAckClient::new(3);
    let mut stats = FlowStats::new();
    assert_eq!(c.enqueue(&mut stats, "p", "old:1", "a"), None);
    assert_eq!(c.enqueue(&mut stats, "p", "new:1", "b"), None);
    assert_eq!(c.enqueue(&mut stats, "q", "q:1", "x"), None);
    let mut out = c.flush_all();
    out.sort_by(|x, y| x.peer.cmp(&y.peer));
    assert_eq!(out.len(), 2);
    assert_eq!((out[0].peer.as_str(), out[0].addr.as_str()), ("p", "new:1"));
    assert_eq!(out[0].key_ids, vec!["a".to_string(), "b".to_string()]);
    assert_eq!(out[1].key_ids, vec!["x".to_string()]);
    assert!(c.flush_all().is_empty());
    for k in ["1", "2"] {
        assert_eq!(c.enqueue(&mut stats, "p", "new:1", k), None);
    }
    assert_eq!(
        c.enqueue(&mut stats, "p", "new:1", "3"),
        Some(vec!["1".to_string(), "2".to_string(), "3".to_string()])
    );
    assert_eq!(stats.peer("p").ack_enqueued, 5);
}

#[test]
fn acknowledgements_go_under_the_certificate_where_they_can() {
    let peers = registry(&[("p", "https://p"), ("mute", "")]);
    let plain = BatchedAckClient::new(1);
    let auth = BatchedAckClient::with_transport(1, true);
    assert!(!plain.has_etsi020_route(&peers, "p"));
    assert!(auth.has_etsi020_route(&peers, "p"));
    assert!(!auth.has_etsi020_route(&peers, "mute"));
    assert!(!auth.has_etsi020_route(&peers, "stranger"));
    assert!(matches!(auth.route(&peers, "p", "a:1"), AckRoute::Authenticated(c) if c.endpoint == "https://p"));
    assert!(matches!(plain.route(&peers, "p", "a:1"), AckRoute::Socket));
    assert!(matches!(auth.route(&peers, "mute", ""), AckRoute::Nowhere));
    let mut stats = FlowStats::new();
    count_send(&mut stats, "p", 4, true);
    count_send(&mut stats, "p", 3, false);
    assert_eq!((stats.peer("p").ack_sent, stats.peer("p").ack_send_failed), (4, 3));
    let c = AckClient::new("me");
    assert!(c.frame(&vec![]).is_none());
    assert_eq!(
        c.frame(&vec!["k".into()]),
        Some(AckFrame { from: "me".into(), key_ids: vec!["k".into()] })
    );
    assert_eq!((c.connect_timeout_ms, c.write_timeout_ms), (2000, 2000));
}

#[test]
fn an_empty_buffer_is_explained_by_the_counters() {
    let zero = PeerFlow::default();
    assert_eq!(diagnose(&zero, 0), None, "nothing was sent");
    let sent = PeerFlow { emitted: 5, ..zero };
    assert_eq!(diagnose(&sent, 0), None, "too early to say");
    assert_eq!(
        diagnose(&PeerFlow { expired: 1, ..sent }, 0),
        Some(Cause::NothingReturns)
    );
    assert_eq!(
        diagnose(&PeerFlow { ack_miss_unknown_key: 1, expired: 1, ..sent }, 0),
        Some(Cause::LateAcks)
    );
    assert_eq!(
        diagnose(&PeerFlow { ack_miss_unknown_peer: 1, ack_miss_unknown_key: 1, ..sent }, 0),
        Some(Cause::IdentityMismatch)
    );
    assert_eq!(diagnose(&PeerFlow { ack_miss_unknown_peer: 1, ..sent }, 1), None);
    assert_eq!(diagnose(&PeerFlow { ack_miss_unknown_key: 1, acked: 1, ..sent }, 0), None);
    assert!(Cause::LateAcks.text().starts_with("sus ACK llegan TARDE"));
}

#[test]
fn reports_cover_every_peer_that_is_known() {
    let g = generator(10);
    let mut pool = BufferPool::new(10);
    let mut stats = FlowStats::new();
    stats.recv("only-sends", 1);
    stats.note_endpoint("only-sends", "1.2.3.4:5");
    let peers = registry(&[("dkms-1", "https://me"), ("dkms-2", "https://p")]);
    pool.for_peer("buffered")
        .dec()
        .try_push(TransportKey::new(KeyId::new("k"), vec![1]))
        .unwrap();
    assert_eq!(
        known_peers(&pool, &peers, &stats),
        vec!["buffered", "dkms-1", "dkms-2", "only-sends"]
    );
    let r = g.report(&pool, &stats, "buffered");
    assert_eq!((r.enc, r.dec, r.ack_pending, r.emit_total), (0, 1, 0, 0));
    let r = g.report(&pool, &stats, "only-sends");
    assert_eq!(r.flow.recv, 1);
    assert_eq!(r.peer_ack_endpoint.as_deref(), Some("1.2.3.4:5"));
    let demand = g.build_demand_report(&pool, &peers);
    assert_eq!(demand.len(), 1, "this node itself is left out");
    assert_eq!(demand[0].src_dkms, "dkms-1");
    assert_eq!(demand[0].dst_dkms, "dkms-2");
    assert_eq!((demand[0].level, demand[0].capacity), (0, 10));
    assert_eq!(demand[0].grade, KeyGrade::Qkd);
    assert_eq!(g.ack_endpoint().as_deref(), Some("10.0.0.1:9"));
}

#[test]
fn an_advertised_endpoint_comes_before_the_address_listened_on() {
    let mut cfg = GeneratorCfg::default();
    cfg.ack_advertised_endpoint = Some("name:1".into());
    let g = Generator::new("n", "0", &cfg, Some("0.0.0.0:1".into()), 1);
    assert_eq!(g.ack_endpoint().as_deref(), Some("name:1"));
}

#[test]
fn sends_are_summed_up() {
    let s = summarise(&vec![Ok(()), Err("one".into()), Ok(()), Err("two".into())]);
    assert_eq!((s.ok, s.failed), (2, 2));
    assert_eq!(s.sample_error.as_deref(), Some("one"));
    let s = summarise(&vec![]);
    assert_eq!((s.ok, s.failed, s.sample_error), (0, 0, None));
}

#[test]
fn waits_grow_and_are_spread() {
    assert_eq!(next_backoff(250, 5_000), 500);
    assert_eq!(next_backoff(4_000, 5_000), 5_000);
    assert_eq!(next_backoff(u64::MAX, 10_000), 10_000);
    assert_eq!(demand_wait_ms(1, 0), Some(30));
    assert_eq!(demand_wait_ms(1, 20), Some(50));
    assert_eq!(demand_wait_ms(1, 21), Some(30));
    assert_eq!(demand_wait_ms(2, 60), Some(150));
    assert_eq!(demand_wait_ms(3, 5), None);
    assert_eq!((demand_period_ms(10), demand_period_ms(1_000)), (50, 1_000));
}

fn step(fill: f64) -> u8 {
    let passed = [
        fill > 0.10 - 0.05,
        fill >= 0.10,
        fill > 0.30 - 0.05,
        fill >= 0.30,
        fill > 0.50 - 0.05,
        fill >= 0.50,
        fill > 0.70 - 0.05,
        fill >= 0.70,
        fill > 0.85,
        fill >= 0.95,
    ];
    passed.iter().filter(|p| **p).count() as u8
}

fn class(fill: f64, prev: Option<BufferQos>) -> BufferQos {
    classify(step(fill), prev)
}

#[test]
fn no_prev_uses_entry_thresholds() {
    assert_eq!(class(0.00, None), BufferQos::Priority);
    assert_eq!(class(0.09, None), BufferQos::Priority);
    assert_eq!(class(0.10, None), BufferQos::Important);
    assert_eq!(class(0.29, None), BufferQos::Important);
    assert_eq!(class(0.30, None), BufferQos::Quickly);
    assert_eq!(class(0.49, None), BufferQos::Quickly);
    assert_eq!(class(0.50, None), BufferQos::Relax);
    assert_eq!(class(0.69, None), BufferQos::Relax);
    assert_eq!(class(0.70, None), BufferQos::BestEffort);
    assert_eq!(class(0.94, None), BufferQos::BestEffort);
    assert_eq!(class(0.95, None), BufferQos::Saturated);
    assert_eq!(class(0.99, None), BufferQos::Saturated);
}

#[test]
fn saturated_hysteresis() {
    assert_eq!(class(0.90, Some(BufferQos::Saturated)), BufferQos::Saturated);
    assert_eq!(class(0.86, Some(BufferQos::Saturated)), BufferQos::Saturated);
    assert_eq!(class(0.85, Some(BufferQos::Saturated)), BufferQos::BestEffort);
    assert_eq!(class(0.69, Some(BufferQos::Saturated)), BufferQos::Relax);
}

#[test]
fn hysteresis_between_classes() {
    assert_eq!(class(0.31, Some(BufferQos::Important)), BufferQos::Quickly);
    assert_eq!(class(0.08, Some(BufferQos::Important)), BufferQos::Important);
    assert_eq!(class(0.04, Some(BufferQos::Important)), BufferQos::Priority);
}

#[test]
fn rank_orders_correctly() {
    assert!(BufferQos::Priority.rank() < BufferQos::Important.rank());
    assert!(BufferQos::Important.rank() < BufferQos::Quickly.rank());
    assert!(BufferQos::BestEffort.rank() < BufferQos::Saturated.rank());
    assert_eq!(BufferQos::BestEffort.as_str(), "best_effort");
}

#[test]
fn turns_go_round() {
    let mut s = Scheduler::new(50);
    assert_eq!(s.next_index(0), None);
    let turns: Vec<usize> = (0..5).map(|_| s.next_index(3).unwrap()).collect();
    assert_eq!(turns, vec![0, 1, 2, 0, 1]);
    assert_eq!(s.next_index(2), Some(0));
    assert_eq!(s.period_ms, 50);
}

#[test]
fn close_blocks_new_admissions_but_not_running() {
    let mut a = Admission::new();
    a.enter().unwrap();
    a.close();
    assert!(!a.is_accepting());
    assert_eq!(a.inflight(), 1);
    assert_eq!(
        a.enter().unwrap_err(),
        (503, "dkms is draining, not accepting new requests".to_string())
    );
    assert!(a.release(), "that was the last");
    assert_eq!(a.inflight(), 0);
    a.reopen();
    a.acquire();
    a.acquire();
    assert!(!a.release());
    assert_eq!((drain_grace_secs(0), drain_grace_secs(9)), (5, 9));
}

fn buffered(id: &str) -> BufferedKey {
    BufferedKey { id: id.into(), bytes: vec![1], size_bits: 8 }
}

#[test]
fn buffered_keys_leave_in_the_order_they_came() {
    let mut r = BufferRegistry::new();
    r.push("l", "r", vec![buffered("1"), buffered("2")]);
    r.push("l", "r", vec![buffered("3")]);
    r.push("l", "other", vec![buffered("x")]);
    assert_eq!(r.len("l", "r"), 3);
    let ids: Vec<String> = r.take("l", "r", 2).into_iter().map(|k| k.id).collect();
    assert_eq!(ids, vec!["1", "2"]);
    assert_eq!(r.take("l", "r", 9).len(), 1);
    assert!(r.take("l", "r", 1).is_empty());
    assert!(r.take("nobody", "r", 1).is_empty());
    assert_eq!(r.len("l", "other"), 1);
}

#[test]
fn transport_keys_are_taken_by_age_by_name_and_by_grade() {
    let key = |id: &str| TransportKey::new(KeyId::new(id), vec![id.len() as u8]);
    let mut b = KeyBuffer::new(Some(3));
    for id in ["a", "b", "a"] {
        b.try_push(key(id)).unwrap();
    }
    assert_eq!(b.try_push(key("z")).unwrap_err().id.as_str(), "z");
    assert!(b.take_by_id(&KeyId::new("nope")).is_none());
    assert_eq!(b.take_by_id(&KeyId::new("a")).unwrap().id.as_str(), "a");
    assert_eq!(b.pop_oldest().unwrap().id.as_str(), "b");
    assert_eq!(b.clear(), 1);
    assert!(b.pop_oldest().is_none());

    let mut p = PeerBuffers::new(None);
    p.enc(KeyGrade::Pqc).try_push(key("pqc")).unwrap();
    p.enc(KeyGrade::Qkd).try_push(key("qkd")).unwrap();
    assert!(p.enc_pop_pref(&vec![]).is_none());
    let prefer = SecurityLevel::NoWorry.serve_pref();
    assert_eq!(p.enc_pop_pref(&prefer).unwrap().id.as_str(), "pqc");
    assert_eq!(p.enc_pop_pref(&prefer).unwrap().id.as_str(), "qkd");
    assert!(p.enc_pop_pref(&prefer).is_none());
}

#[test]
fn a_pending_key_goes_once_to_each_who_may_take_it() {
    let mut p = PendingStore::new(1_000);
    let id = KeyId::new("k");
    let (alice, bob, eve) = (SaeId::new("alice"), SaeId::new("bob"), SaeId::new("eve"));
    p.insert(&id, &SaeId::new("m"), &vec![SaeId::new("alice"), SaeId::new("bob")], vec![7], None, 5);
    assert!(matches!(
        p.take_for_sae(&id, &eve, 5),
        Err(DkmsError::KeyNotAuthorized { .. })
    ));
    let (bytes, initiator) = p.take_for_sae(&id, &alice, 5).unwrap();
    assert_eq!((bytes, initiator.as_str()), (vec![7], "m"));
    assert!(p.take_for_sae(&id, &alice, 5).is_err());
    assert!(matches!(p.take_for_sae(&id, &bob, 1_005), Err(DkmsError::KeyExpired)));
    assert!(p.take_for_sae(&id, &bob, 1_004).is_ok());
    assert_eq!(p.len(), 0);
    p.insert(&id, &SaeId::new("m"), &vec![SaeId::new("bob")], vec![7], Some(1), 5);
    p.insert(&KeyId::new("k2"), &SaeId::new("m"), &vec![bob], vec![7], None, 5);
    p.sweep(6);
    assert_eq!(p.len(), 1);
    p.clear();
    assert_eq!(p.len(), 0);
}

#[test]
fn unknown_sae_surfaces_lookup_failed() {
    let r = StaticSaeResolver::with_entries(&vec![
        (SaeId::new("alice"), NodeId::new("dkms-a")),
        (SaeId::new("alice"), NodeId::new("dkms-b")),
    ]);
    assert_eq!(r.resolve(&SaeId::new("alice")).unwrap().as_str(), "dkms-b");
    let err = r.resolve(&SaeId::new("ghost")).unwrap_err();
    assert!(matches!(err, DkmsError::SaeBindingLookupFailed(_)));
    let sae = SaeId::new("x");
    assert_eq!(sdn_binding(&sae, Some("n")).unwrap().as_str(), "n");
    assert!(sdn_binding(&sae, Some("")).is_err());
    assert!(sdn_binding(&sae, None).is_err());
    assert_eq!(
        lookup_failure(&DkmsError::KeyExpired, &sae).text(),
        "sae binding lookup failed for x"
    );
    assert_eq!(
        lookup_failure(&err, &sae).text(),
        "sae binding lookup failed for ghost"
    );
    assert_eq!((binding_ttl_secs(0), binding_ttl_secs(60)), (1, 60));
}

#[test]
fn entities_share_a_peer_while_they_ask() {
    let mut a = SaeActivity::new(1_000);
    assert_eq!(a.active_sae_count("p", 0), 1);
    a.register_request("p", "x", 0);
    a.register_request("p", "y", 500);
    a.register_request("q", "x", 500);
    assert_eq!(a.active_sae_count("p", 1_000), 2);
    assert_eq!(a.active_sae_count("p", 1_001), 1);
    assert_eq!(
        a.maybe_evict(1_001),
        vec![("p".to_string(), "x".to_string())]
    );
    assert!(a.maybe_evict(1_900).is_empty(), "once in a window");
    let mut gone = a.maybe_evict(2_001);
    gone.sort();
    assert_eq!(
        gone,
        vec![
            ("p".to_string(), "y".to_string()),
            ("q".to_string(), "x".to_string())
        ]
    );
    assert_eq!(a.active_sae_count("p", 2_001), 1);
}

#[test]
fn demand_is_counted_by_windows() {
    let mut w = DemandWindow::new(1_000, 5_000);
    assert_eq!(w.record(50, 5_100), Elapsed { windows: 0, count: 0 });
    assert_eq!(w.record(50, 5_999), Elapsed { windows: 0, count: 0 });
    assert_eq!(w.record(7, 8_500), Elapsed { windows: 3, count: 100 });
    assert_eq!(w.advance(8_999), Elapsed { windows: 0, count: 0 });
    assert_eq!(w.advance(9_000), Elapsed { windows: 1, count: 7 });
    assert_eq!(w.advance(0), Elapsed { windows: 0, count: 0 });
    let mut w = DemandWindow::new(0, i64::MIN);
    assert_eq!(w.advance(i64::MAX).windows, u64::MAX);
}

#[test]
fn a_request_costs_the_units_that_its_keys_begin() {
    assert_eq!(compute_cost(32, 1, 1, 32), 1);
    assert_eq!(compute_cost(33, 2, 3, 32), 12);
    assert_eq!(compute_cost(5, 2, 1, 0), 10);
    assert_eq!(compute_cost(u64::MAX, 3, 0, 1), 0);
    assert_eq!(compute_cost(u64::MAX, 3, 1, 1), u64::MAX);
}

#[test]
fn tokens_are_spent_come_in_and_are_given_back() {
    let mut b = SaeBuckets::new(10, 5);
    let s = SaeId::new("s");
    assert_eq!(b.try_consume(&s, 6, 0), Err(5));
    assert!(b.try_consume(&s, 5, 0).is_ok());
    assert_eq!(b.try_consume(&s, 1, 100 * MILLISECOND - 1), Err(0));
    assert!(b.try_consume(&s, 1, 100 * MILLISECOND).is_ok());
    b.refund(&s, 100, 100 * MILLISECOND);
    assert!(b.try_consume(&s, 5, 100 * MILLISECOND).is_ok());
    b.set_limits(&s, 20, 3, 100 * MILLISECOND);
    assert!(b.try_consume(&s, 20, 100 * MILLISECOND).is_ok(), "no fewer than come in");
    assert_eq!(b.try_consume(&s, 21, 1_000 * SECOND), Err(20));
}

#[test]
fn random_keys_come_in_base64() {
    let q = QrngAdapter::from_config(None);
    assert!(matches!(q.mode, Mode::Os));
    assert!(matches!(QrngAdapter::from_config(Some("")).mode, Mode::Os));
    let keys = q.read_keys_b64(3, 255);
    assert_eq!(keys.len(), 3);
    assert_eq!(keys[0].len(), 44);
    assert_ne!(keys[0], keys[1]);
    let far = QrngAdapter::from_config(Some("http://q"));
    assert!(matches!(&far.mode, Mode::Quditto(u) if u == "http://q"));
    assert!(far.read_keys_b64(3, 256).is_empty());
}

#[test]
fn the_controllers_http_port_follows_from_the_other() {
    assert_eq!(derive_sdn_http_url("http://sdn:50053"), "http://sdn:50055");
    assert_eq!(derive_sdn_http_url("https://sdn:7000/x:y"), "http://sdn:7000/x:50055");
    assert_eq!(derive_sdn_http_url("https://http://sdn"), "http://sdn:50055");
    assert_eq!(derive_sdn_http_url("sdn:9/path"), "http://sdn:11");
    assert_eq!(derive_sdn_http_url("sdn:+9"), "http://sdn:11");
    assert_eq!(derive_sdn_http_url("sdn:70000"), "http://sdn:50055");
    assert_eq!(port_of("h:65535"), 65535);
}

#[test]
fn addresses_are_completed() {
    assert_eq!(upgrade_endpoint(" HTTP://orr:1 "), "https://orr:1");
    assert_eq!(upgrade_endpoint("https://orr:1"), "https://orr:1");
    assert_eq!(upgrade_endpoint(" orr:1"), " orr:1");
    assert_eq!((ack_port(20006), ack_port(65000)), (21006, 464));
    assert!(wants_authenticated_acks("ETSI020"));
    assert!(!wants_authenticated_acks("socket"));
    assert_eq!(subscriber_id("n1"), "dkms-n1");
}

#[test]
fn handshakes_are_counted_between_readings() {
    let mut s = TlsStats::default();
    assert_eq!(s.drain(), None);
    s.record_ok(10);
    s.record_ok(30);
    s.record_failed();
    assert_eq!(
        s.drain(),
        Some(TlsStats { accepted: 2, failed: 1, total_us: 40, max_us: 30 })
    );
    assert_eq!(s.drain(), None);
}
