use dkms::clock::SECOND;
use dkms::config::TransportE2eCfg;
use dkms::crypto::frame_mac::ReplayError;
use dkms::crypto::pqc::suite;
use dkms::e2e::{E2e, E2eError, HDR_E2E_CTR, HDR_E2E_EPOCH, HDR_E2E_TAG};
use dkms::table::Headers;

fn pair() -> (E2e, E2e) {
    pair_with(TransportE2eCfg::default)
}

fn pair_with(cfg: fn() -> TransportE2eCfg) -> (E2e, E2e) {
    (E2e::new("dkms-a", cfg()), E2e::new("dkms-b", cfg()))
}

fn agree(a: &mut E2e, b: &mut E2e) -> u32 {
    let req = a.begin_request("dkms-b").unwrap();
    let resp = b.respond("dkms-a", &req).unwrap();
    a.complete_request("dkms-b", &resp).unwrap()
}

fn weak() -> TransportE2eCfg {
    TransportE2eCfg {
        suite: suite::ML_KEM_512.to_owned(),
        ..TransportE2eCfg::default()
    }
}

fn narrow() -> TransportE2eCfg {
    TransportE2eCfg {
        replay_window: 4,
        ..TransportE2eCfg::default()
    }
}

#[test]
fn a_mismatched_suite_is_rejected_on_both_sides() {
    let (mut a, mut b) = pair();
    let (mut weak, _) = pair_with(weak);
    let req = weak.begin_request("dkms-b").unwrap();
    let err = b
        .respond("dkms-a", &req)
        .expect_err("a suite other than its own");
    assert!(err.text().contains("transport_e2e"));

    let req = a.begin_request("dkms-b").unwrap();
    let mut resp = b.respond("dkms-a", &req).unwrap();
    resp.suite = suite::ML_KEM_512.to_owned();
    assert!(a.complete_request("dkms-b", &resp).is_err());
}

fn header(key_id: &str) -> Headers {
    let mut h = Headers::new();
    h.insert("msg_type", "DKMS_BUFFER");
    h.insert("key_id", key_id);
    h.insert("sae_origin", "dkms-a");
    h.insert("incarnation", "00000000deadbeef");
    h.insert("ack_endpoint", "10.0.0.1:9444");
    h
}

fn copy(h: &Headers) -> Headers {
    let mut c = Headers::new();
    for i in 0..h.len() {
        let (k, v) = h.pair(i);
        c.insert(k, v);
    }
    c
}

#[test]
fn roundtrip_keeps_payload_size_and_both_sides_agree() {
    let (mut a, mut b) = pair();
    let epoch = agree(&mut a, &mut b);
    assert_eq!(a.snapshot("dkms-b").0, Some(epoch));
    assert_eq!(b.snapshot("dkms-a").0, Some(epoch));

    let key = [7u8; 32];
    let mut h = header("k1");
    let ct = a.seal("dkms-b", "k1", &mut h, &key).unwrap();
    assert_eq!(ct.len(), 32, "the tag is not in the payload");
    assert_ne!(ct.as_slice(), &key[..]);
    assert_eq!(h.get(HDR_E2E_EPOCH).unwrap(), epoch.to_string());
    assert_eq!(h.get(HDR_E2E_CTR).unwrap(), "1");
    assert_eq!(h.get(HDR_E2E_TAG).unwrap().len(), 32);

    let pt = b.open("dkms-a", &h, "k1", &ct).unwrap();
    assert_eq!(pt, key);

    let mut h2 = header("k2");
    h2.insert("sae_origin", "dkms-b");
    let ct2 = b.seal("dkms-a", "k2", &mut h2, &key).unwrap();
    assert_eq!(a.open("dkms-b", &h2, "k2", &ct2).unwrap(), key);
}

#[test]
fn no_epoch_until_agreement() {
    let (mut a, _b) = pair();
    let mut h = header("k1");
    let e = a.seal("dkms-b", "k1", &mut h, &[0u8; 32]).unwrap_err();
    assert!(matches!(e, E2eError::NoEpoch { .. }));
}

#[test]
fn tampered_payload_is_rejected() {
    let (mut a, mut b) = pair();
    agree(&mut a, &mut b);
    let mut h = header("k1");
    let mut ct = a.seal("dkms-b", "k1", &mut h, &[1u8; 32]).unwrap();
    ct[5] ^= 0x01;
    let e = b.open("dkms-a", &h, "k1", &ct).unwrap_err();
    assert!(matches!(e, E2eError::BadTag));
}

#[test]
fn tampered_header_is_rejected_before_it_can_act() {
    let (mut a, mut b) = pair();
    agree(&mut a, &mut b);
    let mut h = header("k1");
    let ct = a.seal("dkms-b", "k1", &mut h, &[1u8; 32]).unwrap();
    let mut m = copy(&h);
    m.insert("incarnation", "0000000000000001");
    assert!(matches!(
        b.open("dkms-a", &m, "k1", &ct).unwrap_err(),
        E2eError::BadTag
    ));
    let mut m = copy(&h);
    m.insert("ack_endpoint", "6.6.6.6:1");
    assert!(matches!(
        b.open("dkms-a", &m, "k1", &ct).unwrap_err(),
        E2eError::BadTag
    ));
}

#[test]
fn replay_is_rejected_after_a_valid_open() {
    let (mut a, mut b) = pair();
    agree(&mut a, &mut b);
    let mut h = header("k1");
    let ct = a.seal("dkms-b", "k1", &mut h, &[1u8; 32]).unwrap();
    b.open("dkms-a", &h, "k1", &ct).unwrap();
    assert!(matches!(
        b.open("dkms-a", &h, "k1", &ct).unwrap_err(),
        E2eError::Replay(ReplayError::Replayed { .. })
    ));
}

#[test]
fn replay_window_accepts_out_of_order_within_width_and_rejects_below_the_floor() {
    let (mut a, mut b) = pair_with(narrow);
    agree(&mut a, &mut b);
    let mut sealed: Vec<(String, Headers, Vec<u8>)> = Vec::new();
    for i in 1..=70u8 {
        let id = format!("k{i}");
        let mut h = header(&id);
        let ct = a.seal("dkms-b", &id, &mut h, &[i; 32]).unwrap();
        sealed.push((id, h, ct));
    }
    let mut open = |i: usize| {
        let (id, m, ct) = &sealed[i];
        b.open("dkms-a", m, id, ct)
    };
    assert_eq!(open(69).unwrap(), [70u8; 32]);
    assert_eq!(open(65).unwrap(), [66u8; 32]);
    assert!(matches!(
        open(65).unwrap_err(),
        E2eError::Replay(ReplayError::Replayed { .. })
    ));
    assert!(matches!(
        open(0).unwrap_err(),
        E2eError::Replay(ReplayError::TooOld { .. })
    ));
}

#[test]
fn unknown_epoch_after_receiver_restart() {
    let (mut a, mut b) = pair();
    agree(&mut a, &mut b);
    let mut h = header("k1");
    let ct = a.seal("dkms-b", "k1", &mut h, &[1u8; 32]).unwrap();
    let (_, mut b2) = pair();
    assert!(matches!(
        b2.open("dkms-a", &h, "k1", &ct).unwrap_err(),
        E2eError::UnknownEpoch { .. }
    ));
    let req = b2.begin_request("dkms-a").unwrap();
    let resp = a.respond("dkms-b", &req).unwrap();
    b2.complete_request("dkms-a", &resp).unwrap();
    assert_eq!(a.snapshot("dkms-b").0, Some(resp.epoch));
    let mut h = header("k2");
    let ct = a.seal("dkms-b", "k2", &mut h, &[2u8; 32]).unwrap();
    assert_eq!(b2.open("dkms-a", &h, "k2", &ct).unwrap(), [2u8; 32]);
}

#[test]
fn concurrent_agreements_yield_distinct_epochs_not_one_with_two_secrets() {
    let (mut a, mut b) = pair();
    let ra = a.begin_request("dkms-b").unwrap();
    let rb = b.begin_request("dkms-a").unwrap();
    let sa = b.respond("dkms-a", &ra).unwrap();
    let sb = a.respond("dkms-b", &rb).unwrap();
    assert_ne!(sa.epoch, sb.epoch);
    a.complete_request("dkms-b", &sa).unwrap();
    b.complete_request("dkms-a", &sb).unwrap();
    for kid in ["x", "y"] {
        let mut h = header(kid);
        let ct = a.seal("dkms-b", kid, &mut h, &[9u8; 32]).unwrap();
        assert_eq!(b.open("dkms-a", &h, kid, &ct).unwrap(), [9u8; 32]);
    }
}

#[test]
fn old_epochs_are_pruned_to_history() {
    let (mut a, mut b) = pair();
    let keep = TransportE2eCfg::default().epoch_history_keep;
    let first = agree(&mut a, &mut b);
    for _ in 0..keep {
        agree(&mut a, &mut b);
    }
    assert_eq!(a.snapshot("dkms-b").1, keep);
    assert!(!a.holds("dkms-b", first));
}

#[test]
fn wrong_key_id_changes_key_and_nonce() {
    let (mut a, mut b) = pair();
    agree(&mut a, &mut b);
    let mut h = header("k1");
    let ct = a.seal("dkms-b", "k1", &mut h, &[1u8; 32]).unwrap();
    assert!(matches!(
        b.open("dkms-a", &h, "k-otro", &ct).unwrap_err(),
        E2eError::BadTag
    ));
}

#[test]
fn headers_that_are_missing_or_unreadable_are_named() {
    let (mut a, mut b) = pair();
    agree(&mut a, &mut b);
    let mut h = header("k1");
    let ct = a.seal("dkms-b", "k1", &mut h, &[1u8; 32]).unwrap();
    for name in [HDR_E2E_EPOCH, HDR_E2E_CTR, HDR_E2E_TAG, "incarnation"] {
        let mut m = copy(&h);
        m.remove(name);
        assert!(matches!(
            b.open("dkms-a", &m, "k1", &ct).unwrap_err(),
            E2eError::Header(_)
        ));
        let mut m = copy(&h);
        m.insert(name, "?");
        assert!(matches!(
            b.open("dkms-a", &m, "k1", &ct).unwrap_err(),
            E2eError::Header(_)
        ));
    }
}

#[test]
fn an_agreement_is_started_once_in_a_while_and_not_twice_at_a_time() {
    let (mut a, _) = pair();
    assert!(a.try_start_agreement("dkms-b", 100 * SECOND));
    assert!(!a.try_start_agreement("dkms-b", 900 * SECOND), "one is under way");
    a.end_agreement("dkms-b", false);
    assert!(!a.try_start_agreement("dkms-b", 102 * SECOND - 1), "too soon");
    assert!(a.try_start_agreement("dkms-b", 102 * SECOND));
}

#[test]
fn the_node_whose_name_comes_first_renews() {
    let (mut a, mut b) = pair();
    let req = a.begin_request_at("dkms-b", 0).unwrap();
    let resp = b.respond_at("dkms-a", &req, 0).unwrap();
    a.complete_request_at("dkms-b", &resp, 0).unwrap();
    assert!(a.due_peers(3_600 * SECOND - 1).is_empty());
    assert_eq!(a.due_peers(3_600 * SECOND), vec!["dkms-b".to_string()]);
    assert!(b.due_peers(3_600 * SECOND).is_empty());
}

#[test]
fn a_malformed_agreement_is_refused() {
    let (mut a, mut b) = pair();
    let mut req = a.begin_request("dkms-b").unwrap();
    req.epk = "!!".to_owned();
    assert!(matches!(b.respond("dkms-a", &req), Err(E2eError::Peer(_))));
    let req = a.begin_request("dkms-b").unwrap();
    let mut resp = b.respond("dkms-a", &req).unwrap();
    resp.ct = "AAAA".to_owned();
    assert!(a.complete_request("dkms-b", &resp).is_err());
}

#[test]
fn a_payload_does_not_come_back_after_many_others() {
    let (mut a, mut b) = pair();
    agree(&mut a, &mut b);
    let mut h = header("k1");
    let ct = a.seal("dkms-b", "k1", &mut h, &[1u8; 32]).unwrap();
    b.open("dkms-a", &h, "k1", &ct).unwrap();
    for i in 0..20 {
        let id = format!("later-{i}");
        let mut h = header(&id);
        let ct = a.seal("dkms-b", &id, &mut h, &[2u8; 32]).unwrap();
        b.open("dkms-a", &h, &id, &ct).unwrap();
    }
    assert!(matches!(
        b.open("dkms-a", &h, "k1", &ct).unwrap_err(),
        E2eError::Replay(ReplayError::Replayed { .. })
    ));
}

#[test]
fn a_payload_with_another_tag_is_refused_and_the_genuine_one_still_opens() {
    let (mut a, mut b) = pair();
    agree(&mut a, &mut b);
    let mut h = header("k1");
    let ct = a.seal("dkms-b", "k1", &mut h, &[1u8; 32]).unwrap();
    let mut m = copy(&h);
    let tag = h.get("e2e_tag").unwrap().to_string();
    let first = if tag.starts_with('0') { "1" } else { "0" };
    m.insert("e2e_tag", &format!("{first}{}", &tag[1..]));
    assert!(matches!(
        b.open("dkms-a", &m, "k1", &ct).unwrap_err(),
        E2eError::BadTag
    ));
    assert_eq!(b.open("dkms-a", &h, "k1", &ct).unwrap(), vec![1u8; 32]);
}
