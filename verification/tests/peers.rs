use dkms::clock::SECOND;
use dkms::config::{PeerCfg, PeerTransport};
use dkms::peers::{PeerFromSdn, PeerIncarnations, PeerRegistry};
use dkms::table::Table;

fn seed_peer(endpoint: &str, max_hops: Option<i32>) -> PeerCfg {
    PeerCfg {
        endpoint: endpoint.into(),
        sni: None,
        orr_id: Some("orr_9".into()),
        transport: PeerTransport::Orr,
        max_hops,
        orr_path: None,
        security_level: None,
    }
}

fn from_sdn(id: &str, orr: &str, ep: &str) -> PeerFromSdn {
    PeerFromSdn {
        dkms_id: id.into(),
        orr_id: orr.into(),
        endpoint: ep.into(),
    }
}

#[test]
fn applying_the_same_list_twice_reports_no_change() {
    let mut r = PeerRegistry::from_config(Table::new());
    let list = [from_sdn("dkms-2", "orr_2", "10.0.0.2:20006")];
    assert!(r.apply_from_sdn(&list));
    for _ in 0..5 {
        assert!(!r.apply_from_sdn(&list));
    }
}

#[test]
fn local_policy_survives_an_sdn_update() {
    let mut seed = Table::new();
    seed.insert("dkms-2", seed_peer("https://viejo:20006", Some(3)));
    let mut r = PeerRegistry::from_config(seed);

    r.apply_from_sdn(&[from_sdn("dkms-2", "orr_2", "10.0.0.2:20006")]);
    let p = r.get("dkms-2").unwrap();
    assert_eq!(p.endpoint, "https://10.0.0.2:20006");
    assert_eq!(p.orr_id.as_deref(), Some("orr_2"));
    assert_eq!(p.max_hops, Some(3));
}

#[test]
fn a_seeded_peer_survives_an_empty_sdn_list() {
    let mut seed = Table::new();
    seed.insert("dkms-2", seed_peer("https://10.0.0.2:20006", None));
    let mut r = PeerRegistry::from_config(seed);

    r.apply_from_sdn(&[]);
    assert!(
        r.get("dkms-2").is_some(),
        "a peer of the configuration file stays, though the controller lags behind"
    );
}

#[test]
fn a_peer_that_leaves_the_list_is_dropped() {
    let mut r = PeerRegistry::from_config(Table::new());
    r.apply_from_sdn(&[
        from_sdn("dkms-2", "orr_2", "10.0.0.2:20006"),
        from_sdn("dkms-3", "orr_3", "10.0.0.3:20006"),
    ]);
    assert!(r.apply_from_sdn(&[from_sdn("dkms-2", "orr_2", "10.0.0.2:20006")]));
    assert!(r.get("dkms-3").is_none());
    assert_eq!(r.orr_map().len(), 1);
}

#[test]
fn wipe_is_rate_limited_within_cooldown() {
    let mut inc = PeerIncarnations::new();
    let t0 = 1_000 * SECOND;
    let cd = 30 * SECOND;
    inc.note_at("dkms-2", "a", t0, cd);
    assert_eq!(
        inc.note_at("dkms-2", "b", t0 + SECOND, cd),
        Some("a".to_string()),
        "the first change is acted upon",
    );
    assert_eq!(
        inc.note_at("dkms-2", "c", t0 + 2 * SECOND, cd),
        None,
        "a second one within the cooldown is not",
    );
    assert_eq!(inc.note_at("dkms-2", "d", t0 + 3 * SECOND, cd), None);
    assert_eq!(
        inc.note_at("dkms-2", "e", t0 + 40 * SECOND, cd),
        Some("d".to_string()),
        "after the cooldown a restart is acted upon again",
    );
}

#[test]
fn the_first_sighting_of_a_peer_is_not_a_restart() {
    let mut inc = PeerIncarnations::new();
    assert_eq!(inc.note("dkms-2", "aaaa"), None);
}

#[test]
fn the_same_incarnation_is_not_a_restart() {
    let mut inc = PeerIncarnations::new();
    inc.note("dkms-2", "aaaa");
    for _ in 0..5 {
        assert_eq!(inc.note("dkms-2", "aaaa"), None);
    }
}

#[test]
fn a_new_incarnation_reports_the_one_it_replaces() {
    let mut inc = PeerIncarnations::new();
    inc.note("dkms-2", "aaaa");
    assert_eq!(inc.note("dkms-2", "bbbb"), Some("aaaa".to_string()));
    assert_eq!(inc.note("dkms-2", "bbbb"), None);
}

#[test]
fn peers_are_tracked_independently() {
    let mut inc = PeerIncarnations::new();
    inc.note("dkms-2", "aaaa");
    inc.note("dkms-3", "cccc");
    assert_eq!(inc.note("dkms-2", "bbbb"), Some("aaaa".to_string()));
    assert_eq!(inc.note("dkms-3", "cccc"), None);
}

#[test]
fn a_peer_that_leaves_and_returns_is_still_a_restart() {
    let mut inc = PeerIncarnations::new();
    inc.note("dkms-2", "aaaa");
    assert_eq!(inc.note("dkms-2", "bbbb"), Some("aaaa".to_string()));
}

#[test]
fn an_endpoint_with_a_scheme_is_kept_as_it_is() {
    let mut r = PeerRegistry::from_config(Table::new());
    r.apply_from_sdn(&[from_sdn("dkms-2", "orr_2", "http://10.0.0.2:1")]);
    assert_eq!(r.get("dkms-2").unwrap().endpoint, "http://10.0.0.2:1");
    assert_eq!(r.orr_map().get("dkms-2").map(|s| s.as_str()), Some("orr_2"));
}
