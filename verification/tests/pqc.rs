use dkms::crypto::pqc::{
    kem_for, suite, Kem, MlKem1024Kem, MlKem512Kem, MlKem768Kem, PqcError,
};

fn kem_round_trip<K: Kem>(kem: &K) {
    let kp = kem.keygen().expect("keygen");
    assert_eq!(kp.public.len(), kem.public_key_len());
    assert_eq!(kp.secret.len(), kem.secret_key_len());
    assert_eq!(kp.suite, kem.suite());

    let encap = kem.encap(&kp.public).expect("encap");
    assert_eq!(encap.ciphertext.len(), kem.ciphertext_len());
    assert_eq!(encap.shared_secret.len(), 32);

    let ss = kem.decap(&kp.secret, &encap.ciphertext).expect("decap");
    assert_eq!(ss, encap.shared_secret, "shared secrets must match");
}

#[test]
fn ml_kem_512_round_trip() {
    kem_round_trip(&MlKem512Kem);
}

#[test]
fn ml_kem_768_round_trip() {
    kem_round_trip(&MlKem768Kem);
}

#[test]
fn ml_kem_1024_round_trip() {
    kem_round_trip(&MlKem1024Kem);
}

#[test]
fn kem_for_dispatches() {
    for s in [suite::ML_KEM_512, suite::ML_KEM_768, suite::ML_KEM_1024] {
        let k = kem_for(s).unwrap();
        assert_eq!(k.suite(), s);
        let kp = k.keygen().unwrap();
        let enc = k.encap(&kp.public).unwrap();
        let ss = k.decap(&kp.secret, &enc.ciphertext).unwrap();
        assert_eq!(ss, enc.shared_secret);
    }
}

#[test]
fn kem_for_unknown_suite() {
    assert!(matches!(
        kem_for("kyber-classic"),
        Err(PqcError::UnsupportedSuite(_))
    ));
}

#[test]
fn rejects_bad_pubkey_length() {
    let kem = MlKem768Kem;
    let err = kem.encap(&[0u8; 10]).unwrap_err();
    assert!(matches!(err, PqcError::BadLength { .. }));
}

#[test]
fn wrong_ciphertext_fails_decap() {
    let kem = MlKem768Kem;
    let kp = kem.keygen().unwrap();
    let enc = kem.encap(&kp.public).unwrap();
    let mut tampered = enc.ciphertext.clone();
    tampered[0] ^= 0xFF;
    let ss_tampered = kem.decap(&kp.secret, &tampered).unwrap();
    assert_ne!(ss_tampered, enc.shared_secret);
}
