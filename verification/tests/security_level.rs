use dkms::etsi::{EncKeysQuery, Etsi014KeyRequest, ExtValue, Extensions};
use dkms::security::SecurityLevel;
use dkms::security_level::{resolve, EXT_KEY};

fn ext(level: &str) -> Vec<Extensions> {
    vec![Extensions {
        entries: vec![(EXT_KEY.into(), ExtValue::Text(level.into()))],
    }]
}

fn req() -> Etsi014KeyRequest {
    Etsi014KeyRequest::default()
}

#[test]
fn no_extension_uses_default() {
    let r = req();
    assert_eq!(
        resolve(&r, SecurityLevel::QkdPrefer).unwrap(),
        SecurityLevel::QkdPrefer
    );
    assert_eq!(
        resolve(&r, SecurityLevel::NoWorry).unwrap(),
        SecurityLevel::NoWorry
    );
}

#[test]
fn mandatory_strict_qkd_is_honored() {
    let mut r = req();
    r.extension_mandatory = Some(ext("strict_qkd"));
    assert_eq!(
        resolve(&r, SecurityLevel::QkdPrefer).unwrap(),
        SecurityLevel::StrictQkd
    );
}

#[test]
fn optional_level_overrides_default() {
    let mut r = req();
    r.extension_optional = Some(ext("no_worry"));
    assert_eq!(
        resolve(&r, SecurityLevel::QkdPrefer).unwrap(),
        SecurityLevel::NoWorry
    );
}

#[test]
fn mandatory_takes_precedence_over_optional() {
    let mut r = req();
    r.extension_mandatory = Some(ext("strict_qkd"));
    r.extension_optional = Some(ext("no_worry"));
    assert_eq!(
        resolve(&r, SecurityLevel::QkdPrefer).unwrap(),
        SecurityLevel::StrictQkd
    );
}

#[test]
fn unknown_mandatory_is_rejected() {
    let mut r = req();
    r.extension_mandatory = Some(ext("ultra_secret"));
    assert!(resolve(&r, SecurityLevel::QkdPrefer).is_err());
}

#[test]
fn unknown_optional_falls_back_to_default() {
    let mut r = req();
    r.extension_optional = Some(ext("ultra_secret"));
    assert_eq!(
        resolve(&r, SecurityLevel::QkdPrefer).unwrap(),
        SecurityLevel::QkdPrefer
    );
}

#[test]
fn a_refused_level_is_shown_in_quotes() {
    let mut r = req();
    r.extension_mandatory = Some(ext("a\"b"));
    assert_eq!(
        resolve(&r, SecurityLevel::QkdPrefer).unwrap_err(),
        "unsupported mandatory security_level: \"a\\\"b\""
    );
}

fn no_text() -> Vec<Extensions> {
    vec![Extensions {
        entries: vec![
            ("other".into(), ExtValue::Text("x".into())),
            (EXT_KEY.into(), ExtValue::Other),
        ],
    }]
}

#[test]
fn a_mandatory_level_that_is_no_text_is_refused() {
    let mut r = req();
    r.extension_mandatory = Some(no_text());
    r.extension_optional = Some(ext("no_worry"));
    assert_eq!(
        resolve(&r, SecurityLevel::QkdPrefer).unwrap_err(),
        "unsupported mandatory security_level: not a string"
    );
    let mut list = no_text();
    list.append(&mut ext("no_worry"));
    r.extension_mandatory = Some(list);
    assert!(resolve(&r, SecurityLevel::QkdPrefer).is_err(), "the first one decides");
}

#[test]
fn an_optional_level_that_is_no_text_is_passed_over() {
    let mut r = req();
    let mut list = no_text();
    r.extension_optional = Some(no_text());
    assert_eq!(
        resolve(&r, SecurityLevel::QkdPrefer).unwrap(),
        SecurityLevel::QkdPrefer
    );
    list.append(&mut ext("no_worry"));
    r.extension_optional = Some(list);
    assert_eq!(
        resolve(&r, SecurityLevel::QkdPrefer).unwrap(),
        SecurityLevel::NoWorry
    );
}

#[test]
fn get_enc_keys_sin_parametros_usa_los_defaults_del_post() {
    let req = EncKeysQuery { number: None, size: None }.into_request();
    let by_default = Etsi014KeyRequest::default();
    assert_eq!(req.number, by_default.number);
    assert_eq!(req.size, by_default.size);
    assert_eq!((req.number, req.size), (1, 256));
    assert!(req.additional_slave_sae_ids.is_none());
    assert!(req.extension_mandatory.is_none());
}

#[test]
fn get_enc_keys_number_y_size_por_uri() {
    let req = EncKeysQuery { number: Some(3), size: Some(1024) }.into_request();
    assert_eq!(req.number, 3);
    assert_eq!(req.size, 1024);
    let req = EncKeysQuery { number: None, size: Some(512) }.into_request();
    assert_eq!(req.number, 1);
    assert_eq!(req.size, 512);
}
