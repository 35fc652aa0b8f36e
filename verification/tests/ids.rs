use dkms::ids::{is_valid_id, KeyId, LinkId, NodeId, SaeId};

#[test]
fn distinct_id_types_dont_mix() {
    let _: NodeId = "x".into();
    let _: SaeId = "y".into();
}

#[test]
fn ids_from_outside_are_held_to_their_alphabet() {
    assert_eq!(NodeId::try_new("dkms-1.a_b:c@d+e").unwrap().as_str(), "dkms-1.a_b:c@d+e");
    assert!(SaeId::try_new("").is_err());
    assert!(KeyId::try_new("a b").is_err());
    assert!(LinkId::try_new("\u{e1}").is_err());
    assert!(NodeId::try_new(&"x".repeat(64)).is_ok());
    let e = NodeId::try_new(&"x".repeat(65)).unwrap_err();
    assert_eq!(
        e.text(),
        "id inv\u{e1}lido (65 bytes; se admiten 1..=64 de [A-Za-z0-9._:@+-])"
    );
}

#[test]
fn two_dots_in_a_row_are_refused() {
    assert!(!is_valid_id(".."));
    assert!(!is_valid_id("a..b"));
    assert!(!is_valid_id("dkms-1.."));
    assert!(is_valid_id("."));
    assert!(is_valid_id("a.b.c"));
    assert!(is_valid_id(".a."));
    assert!(NodeId::try_new("..").is_err());
    assert!(SaeId::try_new("x/y").is_err());
}
