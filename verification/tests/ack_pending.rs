use dkms::ack_pending::{AckPendingEntry, AckPendingStore, TakeOutcome};
use dkms::clock::SECOND;
use dkms::ids::KeyId;
use dkms::security::KeyGrade;

const NOW: u64 = 1_000 * SECOND;

fn id(s: &str) -> KeyId {
    KeyId::new(s)
}

#[test]
fn insert_and_take() {
    let mut store = AckPendingStore::new();
    let entry = AckPendingEntry::new(vec![0xAB; 32], NOW + 30 * SECOND, KeyGrade::Qkd);
    store.insert("dkms-22", &id("k1"), entry);
    assert_eq!(store.pending_count("dkms-22"), 1);
    let got = store.take("dkms-22", &id("k1")).expect("present");
    assert_eq!(got.bytes.as_slice(), &[0xAB; 32]);
    assert_eq!(store.pending_count("dkms-22"), 0);
}

#[test]
fn take_missing_returns_none() {
    let mut store = AckPendingStore::new();
    assert!(store.take("dkms-22", &id("nope")).is_none());
}

#[test]
fn take_diagnosed_separates_unknown_peer_from_unknown_key() {
    let mut store = AckPendingStore::new();
    store.insert(
        "dkms-22",
        &id("k1"),
        AckPendingEntry::new(vec![0xAB; 32], NOW + 30 * SECOND, KeyGrade::Qkd),
    );
    assert!(matches!(
        store.take_diagnosed("DKMS-22", &id("k1")),
        TakeOutcome::UnknownPeer
    ));
    assert!(matches!(
        store.take_diagnosed("dkms-22", &id("otra")),
        TakeOutcome::UnknownKey
    ));
    assert!(matches!(
        store.take_diagnosed("dkms-22", &id("k1")),
        TakeOutcome::Hit(_)
    ));
}

#[test]
fn reap_expired_reports_per_peer() {
    let mut store = AckPendingStore::new();
    let dead = || AckPendingEntry::new(vec![0xEF; 32], NOW - SECOND, KeyGrade::Qkd);
    store.insert("dkms-2", &id("a"), dead());
    store.insert("dkms-2", &id("b"), dead());
    store.insert("dkms-3", &id("c"), dead());
    let mut by_peer = store.reap_expired_by_peer(NOW);
    by_peer.sort();
    assert_eq!(
        by_peer,
        vec![("dkms-2".to_string(), 2), ("dkms-3".to_string(), 1)]
    );
}

#[test]
fn reap_expired_drops_old_entries() {
    let mut store = AckPendingStore::new();
    let alive = AckPendingEntry::new(vec![0xCD; 32], NOW + 30 * SECOND, KeyGrade::Qkd);
    let dead = AckPendingEntry::new(vec![0xEF; 32], NOW - SECOND, KeyGrade::Qkd);
    store.insert("dkms-22", &id("alive"), alive);
    store.insert("dkms-22", &id("dead"), dead);
    let n = store.reap_expired(NOW);
    assert_eq!(n, 1);
    assert!(store.take("dkms-22", &id("dead")).is_none());
    assert!(store.take("dkms-22", &id("alive")).is_some());
}

#[test]
fn dropping_a_peer_releases_everything_pending_for_it() {
    let mut store = AckPendingStore::new();
    let deadline = NOW + 60 * SECOND;
    for k in ["k1", "k2", "k3"] {
        store.insert(
            "dkms-2",
            &KeyId::new(k),
            AckPendingEntry::new(vec![0u8; 32], deadline, KeyGrade::Pqc),
        );
    }
    store.insert(
        "dkms-3",
        &KeyId::new("otra"),
        AckPendingEntry::new(vec![0u8; 32], deadline, KeyGrade::Pqc),
    );

    assert_eq!(store.drop_peer("dkms-2"), 3);
    assert_eq!(store.pending_count("dkms-2"), 0);
    assert_eq!(store.pending_count("dkms-3"), 1, "the other peers are left alone");
    assert_eq!(store.drop_peer("dkms-2"), 0, "idempotent");
}

#[test]
fn a_key_expires_at_its_deadline_and_not_before() {
    let e = AckPendingEntry::new(vec![1], 500, KeyGrade::Qkd);
    assert!(!e.is_expired(499));
    assert!(e.is_expired(500));
}

#[test]
fn snapshot_and_peers_list_what_is_pending() {
    let mut store = AckPendingStore::new();
    assert!(store.peers().is_empty());
    store.insert("b", &id("1"), AckPendingEntry::new(vec![1], 10, KeyGrade::Qkd));
    store.insert("a", &id("1"), AckPendingEntry::new(vec![1], 10, KeyGrade::Qkd));
    store.insert("a", &id("2"), AckPendingEntry::new(vec![1], 20, KeyGrade::Qkd));
    let mut snap = store.snapshot();
    snap.sort();
    assert_eq!(snap, vec![("a".to_string(), 2), ("b".to_string(), 1)]);
    assert_eq!(store.reap_expired(10), 2);
    assert_eq!(store.peers(), vec!["a".to_string()]);
}
