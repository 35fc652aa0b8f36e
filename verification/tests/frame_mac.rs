use dkms::crypto::frame_mac::{
    derive_key, tag, verify, FrameAad, MacError, ReplayError, ReplayWindow, TAG_LEN,
};
use dkms::crypto::link_mac;

const ROOT: &[u8] = b"link root secret, 32+ bytes of it!!";

fn aad<'a>(counter: u64, body: &'a [u8], key_ids: &'a [String]) -> FrameAad<'a> {
    FrameAad {
        kind: 0x04,
        grade: 0,
        session: 7,
        counter,
        sender_id: 1,
        receiver_id: 2,
        dest_final: 9,
        key_size_bits: 256,
        epoch_id: 3,
        key_ids,
        header_orr_mp: b"orr",
        header_dkms_mp: b"dkms",
        body,
    }
}

#[test]
fn round_trip() {
    let k = derive_key(ROOT, 7);
    let ids = vec!["id-1".to_string()];
    let a = aad(1, b"ciphertext", &ids);
    let t = tag(&k, &a);
    assert_eq!(t.len(), TAG_LEN);
    assert!(verify(&k, &a, &t).is_ok());
}

#[test]
fn every_field_is_bound() {
    let k = derive_key(ROOT, 7);
    let ids = vec!["id-1".to_string()];
    let base = aad(1, b"ciphertext", &ids);
    let t = tag(&k, &base);

    let mut body2 = b"ciphertext".to_vec();
    body2[0] ^= 0xFF;
    let mut a = base;
    a.body = &body2;
    assert_eq!(verify(&k, &a, &t), Err(MacError::Invalid));

    let mut a = base;
    a.sender_id = 99;
    assert_eq!(verify(&k, &a, &t), Err(MacError::Invalid));

    let mut a = base;
    a.dest_final = 42;
    assert_eq!(verify(&k, &a, &t), Err(MacError::Invalid));

    let mut a = base;
    a.header_dkms_mp = b"dkms!";
    assert_eq!(verify(&k, &a, &t), Err(MacError::Invalid));

    let mut a = base;
    a.grade = 1;
    assert_eq!(verify(&k, &a, &t), Err(MacError::Invalid));

    let mut a = base;
    a.counter = 2;
    assert_eq!(verify(&k, &a, &t), Err(MacError::Invalid));
    let mut a = base;
    a.session = 8;
    assert_eq!(verify(&k, &a, &t), Err(MacError::Invalid));

    let ids2 = vec!["id-2".to_string()];
    let mut a = base;
    a.key_ids = &ids2;
    assert_eq!(verify(&k, &a, &t), Err(MacError::Invalid));
}

#[test]
fn key_ids_boundary_cannot_slide() {
    let k = derive_key(ROOT, 7);
    let a_ids = vec!["ab".to_string(), "c".to_string()];
    let b_ids = vec!["a".to_string(), "bc".to_string()];
    let a = aad(1, b"x", &a_ids);
    let t = tag(&k, &a);
    let mut b = a;
    b.key_ids = &b_ids;
    assert_eq!(verify(&k, &b, &t), Err(MacError::Invalid));
}

#[test]
fn different_sessions_derive_different_keys() {
    assert_ne!(derive_key(ROOT, 1), derive_key(ROOT, 2));
    assert_ne!(derive_key(ROOT, 1), derive_key(b"other root", 1));
}

#[test]
fn wrong_root_rejected() {
    let ids: Vec<String> = vec![];
    let a = aad(1, b"x", &ids);
    let t = tag(&derive_key(ROOT, 7), &a);
    assert_eq!(
        verify(&derive_key(b"wrong root", 7), &a, &t),
        Err(MacError::Invalid)
    );
}

#[test]
fn handshake_tag_is_not_a_frame_tag() {
    let ids: Vec<String> = vec![];
    let a = aad(1, b"blob", &ids);
    let k = derive_key(ROOT, 7);
    let handshake = link_mac::tag(
        &k,
        &link_mac::TAG_INIT,
        3,
        1,
        2,
        b"blob",
        "ml-kem-768",
        256,
    );
    assert_eq!(verify(&k, &a, &handshake), Err(MacError::Invalid));
}

#[test]
fn frame_mac_wrong_length_mac_rejected_cleanly() {
    let ids: Vec<String> = vec![];
    let a = aad(1, b"x", &ids);
    let k = derive_key(ROOT, 7);
    assert_eq!(verify(&k, &a, &[0u8; 16]), Err(MacError::Invalid));
    assert_eq!(verify(&k, &a, &[]), Err(MacError::Invalid));
}


#[test]
fn window_accepts_in_order_and_rejects_repeat() {
    let mut w = ReplayWindow::new(64);
    for c in 1..=100 {
        assert!(w.check_and_set(1, c).is_ok(), "counter {c}");
    }
    assert_eq!(
        w.check_and_set(1, 100),
        Err(ReplayError::Replayed {
            session: 1,
            counter: 100
        })
    );
    assert_eq!(
        w.check_and_set(1, 80),
        Err(ReplayError::Replayed {
            session: 1,
            counter: 80
        })
    );
}

#[test]
fn window_accepts_out_of_order_within_width() {
    let mut w = ReplayWindow::new(64);
    assert!(w.check_and_set(1, 10).is_ok());
    for c in 1..10 {
        assert!(w.check_and_set(1, c).is_ok(), "late {c}");
    }
    assert!(w.check_and_set(1, 5).is_err());
}

#[test]
fn window_rejects_beyond_width() {
    let mut w = ReplayWindow::new(64);
    assert!(w.check_and_set(1, 200).is_ok());
    assert!(matches!(
        w.check_and_set(1, 100),
        Err(ReplayError::TooOld { .. })
    ));
    assert!(w.check_and_set(1, 199).is_ok());
}

#[test]
fn window_survives_a_big_jump() {
    let mut w = ReplayWindow::new(128);
    assert!(w.check_and_set(1, 1).is_ok());
    assert!(w.check_and_set(1, 1_000_000).is_ok());
    assert!(matches!(
        w.check_and_set(1, 1),
        Err(ReplayError::TooOld { .. })
    ));
    assert!(w.check_and_set(1, 999_999).is_ok());
}

#[test]
fn new_session_resets_the_window() {
    let mut w = ReplayWindow::new_monotonic(64);
    assert!(w.check_and_set(1, 50).is_ok());
    assert!(w.check_and_set(2, 1).is_ok());
    assert_eq!(w.session(), Some(2));
    assert_eq!(w.highest(), 1);
}

#[test]
fn retired_session_cannot_be_revived() {
    let mut w = ReplayWindow::new_monotonic(64);
    assert!(w.check_and_set(1, 5).is_ok());
    assert!(w.check_and_set(2, 1).is_ok());
    assert!(w.check_and_set(3, 1).is_ok());
    assert_eq!(
        w.check_and_set(1, 5),
        Err(ReplayError::RetiredSession { session: 1 })
    );
    assert_eq!(
        w.check_and_set(1, 6),
        Err(ReplayError::RetiredSession { session: 1 })
    );
    assert!(w.check_and_set(3, 2).is_ok());
}

#[test]
fn a_captured_frame_of_an_older_session_does_not_mute_the_current_one() {
    let mut w = ReplayWindow::new_monotonic(64);
    assert!(w.check_and_set(5, 10).is_ok());
    assert_eq!(
        w.check_and_set(1, 7),
        Err(ReplayError::RetiredSession { session: 1 })
    );
    assert_eq!(w.session(), Some(5));
    assert!(w.check_and_set(5, 11).is_ok());
    let mut w = ReplayWindow::new_quiet_gated(64);
    assert!(w.check_and_set(77, 3).is_ok());
    assert_eq!(
        w.check_and_set(12, 1),
        Err(ReplayError::RetiredSession { session: 12 })
    );
    assert!(w.check_and_set(77, 4).is_ok());
    let mut w = ReplayWindow::new(64);
    assert!(w.check_and_set(9, 1).is_ok());
    assert!(w.check_and_set(4, 1).is_ok());
    assert_eq!(w.session(), Some(4));
    assert!(
        w.check_and_set(9, 2).is_ok(),
        "la anterior sigue aceptando frescos"
    );
    assert!(w.check_and_set(1, 1).is_ok());
    assert_eq!(
        w.check_and_set(9, 3),
        Err(ReplayError::RetiredSession { session: 9 })
    );
}

#[test]
fn late_frames_of_the_previous_session_are_still_accepted_once() {
    let mut w = ReplayWindow::new_monotonic(64);
    assert!(w.check_and_set(1, 5).is_ok());
    assert!(w.check_and_set(2, 1).is_ok());
    assert!(w.check_and_set(1, 6).is_ok());
    assert!(w.check_and_set(1, 4).is_ok());
    assert_eq!(
        w.check_and_set(1, 6),
        Err(ReplayError::Replayed {
            session: 1,
            counter: 6
        })
    );
    assert_eq!(w.session(), Some(2));
}

#[test]
fn zero_counter_rejected() {
    let mut w = ReplayWindow::new(64);
    assert_eq!(w.check_and_set(1, 0), Err(ReplayError::ZeroCounter));
}

#[test]
fn window_width_has_a_floor() {
    let mut w = ReplayWindow::new(1);
    assert!(w.check_and_set(1, 1).is_ok());
    assert!(w.check_and_set(1, 2).is_ok());
    assert!(w.check_and_set(1, 1).is_err());
}

#[test]
fn full_flow_forged_frame_never_reaches_the_window() {
    let k = derive_key(ROOT, 7);
    let ids: Vec<String> = vec![];
    let mut w = ReplayWindow::new(64);

    let good = aad(1, b"real", &ids);
    let t = tag(&k, &good);
    assert!(verify(&k, &good, &t).is_ok());
    assert!(w.check_and_set(good.session, good.counter).is_ok());

    let mut forged = good;
    forged.session = 999;
    assert_eq!(verify(&k, &forged, &[0u8; TAG_LEN]), Err(MacError::Invalid));
    assert_eq!(w.session(), Some(7));
}

#[test]
fn silence_lets_a_quiet_gated_window_adopt_another_session() {
    let mut w = ReplayWindow::new_quiet_gated(64);
    w.set_quiet(1_000);
    assert!(w.check_and_set_at(77, 3, 5_000).is_ok());
    assert_eq!(
        w.check_and_set_at(12, 1, 5_999),
        Err(ReplayError::RetiredSession { session: 12 })
    );
    assert_eq!(w.session(), Some(77));
    assert!(w.check_and_set_at(12, 1, 6_000).is_ok());
    assert_eq!(w.session(), Some(12));
}

#[test]
fn a_frame_stays_spent_while_its_session_is_remembered() {
    let mut w = ReplayWindow::new(64);
    assert!(w.check_and_set(100, 5).is_ok());
    for counter in 6..40 {
        assert!(w.check_and_set(100, counter).is_ok());
    }
    assert_eq!(
        w.check_and_set(100, 5),
        Err(ReplayError::Replayed {
            session: 100,
            counter: 5
        })
    );
    for session in 0..9 {
        assert!(w.check_and_set(session, 1).is_ok());
        assert!(w.check_and_set(session, 2).is_ok());
        assert!(w.check_and_set(100, 5).is_err());
    }
    assert!(w.check_and_set(9, 1).is_ok());
    assert!(w.check_and_set(100, 5).is_ok(), "the session is forgotten");
}
