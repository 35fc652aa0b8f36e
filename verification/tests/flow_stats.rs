use dkms::flow_stats::{classify_endpoint, EndpointVerdict, FlowStats, PeerFlow};

#[test]
fn counters_are_per_peer() {
    let mut s = FlowStats::new();
    s.emitted("dkms-2", 3);
    s.emitted("dkms-3", 1);
    s.acked("dkms-2", 2);
    assert_eq!(s.peer("dkms-2").emitted, 3);
    assert_eq!(s.peer("dkms-2").acked, 2);
    assert_eq!(s.peer("dkms-3").emitted, 1);
    assert_eq!(s.peer("dkms-3").acked, 0);
    let mut ids = s.peer_ids();
    ids.sort();
    assert_eq!(ids, vec!["dkms-2".to_string(), "dkms-3".to_string()]);
}

#[test]
fn note_endpoint_only_fires_on_change() {
    let mut s = FlowStats::new();
    assert!(s.note_endpoint("dkms-2", "10.0.0.2:20009"));
    assert!(!s.note_endpoint("dkms-2", "10.0.0.2:20009"));
    assert!(s.note_endpoint("dkms-2", "10.0.0.9:20009"));
    assert_eq!(s.endpoint_of("dkms-2").as_deref(), Some("10.0.0.9:20009"));
}

#[test]
fn wildcard_and_loopback_endpoints_are_flagged() {
    assert_eq!(
        classify_endpoint("0.0.0.0:20009"),
        EndpointVerdict::Wildcard
    );
    assert_eq!(classify_endpoint("[::]:20009"), EndpointVerdict::Wildcard);
    assert_eq!(
        classify_endpoint("127.0.0.1:20009"),
        EndpointVerdict::Loopback
    );
    assert_eq!(
        classify_endpoint("localhost:20009"),
        EndpointVerdict::Loopback
    );
    assert_eq!(
        classify_endpoint("192.168.50.202:20009"),
        EndpointVerdict::Routable
    );
    assert_eq!(classify_endpoint("dkms-2:20009"), EndpointVerdict::Routable);
}

#[test]
fn counters_wrap_and_every_counter_counts_for_itself() {
    let mut s = FlowStats::new();
    s.emitted("p", u64::MAX);
    s.emitted("p", 2);
    s.emit_failed("p", 1);
    s.ack_miss_unknown_peer("p", 2);
    s.ack_miss_unknown_key("p", 3);
    s.expired("p", 4);
    s.enc_full("p", 5);
    s.recv("p", 6);
    s.ack_enqueued("p", 7);
    s.ack_sent("p", 8);
    s.ack_send_failed("p", 9);
    s.ack_no_endpoint("p", 10);
    s.recv_corrupt("p", 11);
    s.recv_no_epoch("p", 12);
    s.recv_replayed("p", 13);
    s.dec_dropped("p", 14);
    assert_eq!(
        s.peer("p"),
        PeerFlow {
            emitted: 1,
            emit_failed: 1,
            acked: 0,
            ack_miss_unknown_peer: 2,
            ack_miss_unknown_key: 3,
            expired: 4,
            enc_full: 5,
            recv: 6,
            ack_enqueued: 7,
            ack_sent: 8,
            ack_send_failed: 9,
            ack_no_endpoint: 10,
            recv_corrupt: 11,
            recv_no_epoch: 12,
            recv_replayed: 13,
            dec_dropped: 14,
        }
    );
    assert_eq!(s.peer("unheard of"), PeerFlow::default());
}
