use base64::Engine;
use dkms::crypto::link_mac::{TAG_INIT, TAG_RESP};
use dkms::crypto::pqc_sign::{
    keygen, sign, sign_handshake, sign_handshake_with, sign_orr_pubkey, sign_orr_pubkey_with,
    verify, verify_handshake, verify_orr_pubkey, MlDsa65Signer, SignError, SEED_LEN, SIGNATURE_LEN,
    VERIFYING_KEY_LEN,
};

#[test]
fn keygen_sizes() {
    let kp = keygen();
    assert_eq!(kp.secret_seed.len(), SEED_LEN);
    assert_eq!(kp.verifying_key.len(), VERIFYING_KEY_LEN);
}

#[test]
fn sign_verify_round_trip() {
    let kp = keygen();
    let msg = b"handshake bytes to authenticate";
    let sig = sign(&kp.secret_seed, msg).unwrap();
    assert_eq!(sig.len(), SIGNATURE_LEN);
    assert!(verify(&kp.verifying_key, msg, &sig).is_ok());
}

#[test]
fn rejects_tampered_message_and_wrong_key() {
    let kp = keygen();
    let other = keygen();
    let msg = b"original message";
    let sig = sign(&kp.secret_seed, msg).unwrap();
    assert_eq!(
        verify(&kp.verifying_key, b"other message", &sig),
        Err(SignError::Invalid)
    );
    assert_eq!(
        verify(&other.verifying_key, msg, &sig),
        Err(SignError::Invalid)
    );
}

#[test]
fn bad_lengths_rejected_cleanly() {
    assert_eq!(sign(&[0u8; 8], b"m"), Err(SignError::BadLength));
    assert_eq!(
        verify(&[0u8; 8], b"m", &[0u8; SIGNATURE_LEN]),
        Err(SignError::BadLength)
    );
}

#[test]
fn orr_pubkey_announcement_sign_verify() {
    let kp = keygen();
    let pk = vec![0x11; 1184];
    let sig = sign_orr_pubkey(&kp.secret_seed, "orr_1", "ml-kem-768", &pk).unwrap();
    assert!(verify_orr_pubkey(&kp.verifying_key, "orr_1", "ml-kem-768", &pk, &sig).is_ok());
    assert_eq!(
        verify_orr_pubkey(&kp.verifying_key, "orr_2", "ml-kem-768", &pk, &sig),
        Err(SignError::Invalid),
    );
    assert_eq!(
        verify_orr_pubkey(
            &kp.verifying_key,
            "orr_1",
            "ml-kem-768",
            &[0x22; 1184],
            &sig
        ),
        Err(SignError::Invalid),
    );
}

#[test]
fn handshake_sign_verify_binds_fields() {
    let kp = keygen();
    let blob = vec![0xAB; 1184];
    let sig = sign_handshake(
        &kp.secret_seed,
        &TAG_INIT,
        7,
        1,
        2,
        &blob,
        "ml-kem-768",
        1024,
    )
    .unwrap();
    assert!(verify_handshake(
        &kp.verifying_key,
        &TAG_INIT,
        7,
        1,
        2,
        &blob,
        "ml-kem-768",
        1024,
        &sig
    )
    .is_ok());
    for bad in [
        verify_handshake(
            &kp.verifying_key,
            &TAG_RESP,
            7,
            1,
            2,
            &blob,
            "ml-kem-768",
            1024,
            &sig,
        ),
        verify_handshake(
            &kp.verifying_key,
            &TAG_INIT,
            8,
            1,
            2,
            &blob,
            "ml-kem-768",
            1024,
            &sig,
        ),
        verify_handshake(
            &kp.verifying_key,
            &TAG_INIT,
            7,
            2,
            1,
            &blob,
            "ml-kem-768",
            1024,
            &sig,
        ),
        verify_handshake(
            &kp.verifying_key,
            &TAG_INIT,
            7,
            1,
            2,
            &blob,
            "ml-kem-512",
            1024,
            &sig,
        ),
        verify_handshake(
            &kp.verifying_key,
            &TAG_INIT,
            7,
            1,
            2,
            &blob,
            "ml-kem-768",
            256,
            &sig,
        ),
    ] {
        assert_eq!(bad, Err(SignError::Invalid));
    }
}

/// A PKCS#8 document with the seed of a key of the algorithm whose identifier
/// ends in `alg`: 0x12 is ML-DSA-65.
fn pkcs8(seed: &[u8], alg: u8) -> Vec<u8> {
    let mut der = vec![0x30, 0x34, 0x02, 0x01, 0x00, 0x30, 0x0B, 0x06, 0x09];
    der.extend_from_slice(&[0x60, 0x86, 0x48, 0x01, 0x65, 0x03, 0x04, 0x03, alg]);
    der.extend_from_slice(&[0x04, 0x22, 0x80, 0x20]);
    der.extend_from_slice(seed);
    der
}

fn pem(label: &str, der: &[u8]) -> String {
    let b64 = base64::engine::general_purpose::STANDARD.encode(der);
    format!("-----BEGIN {label}-----\n{b64}\n-----END {label}-----\n")
}

#[test]
fn a_signer_is_loaded_from_pkcs8() {
    let kp = keygen();
    let der = pkcs8(&kp.secret_seed, 0x12);
    for signer in [
        MlDsa65Signer::from_pkcs8_der(&der).ok().unwrap(),
        MlDsa65Signer::from_pkcs8_pem(pem("PRIVATE KEY", &der).as_bytes()).ok().unwrap(),
    ] {
        assert_eq!(signer.verifying_key(), kp.verifying_key);
        assert_eq!(signer.sign(b"m"), sign(&kp.secret_seed, b"m").unwrap());
        let sig = sign_handshake_with(&signer, &TAG_INIT, 7, 1, 2, &[1, 2], "ml-kem-768", 256);
        assert!(verify_handshake(
            &kp.verifying_key,
            &TAG_INIT,
            7,
            1,
            2,
            &[1, 2],
            "ml-kem-768",
            256,
            &sig
        )
        .is_ok());
        let sig = sign_orr_pubkey_with(&signer, "orr_1", "ml-kem-768", &[3, 4]);
        assert_eq!(
            sig,
            sign_orr_pubkey(&kp.secret_seed, "orr_1", "ml-kem-768", &[3, 4]).unwrap()
        );
    }
}

#[test]
fn keys_of_another_kind_are_no_signers() {
    let seed = [7u8; SEED_LEN];
    let other = pkcs8(&seed, 0x11);
    assert_eq!(
        MlDsa65Signer::from_pkcs8_der(&other).err(),
        Some(SignError::NotMlDsa)
    );
    assert_eq!(
        MlDsa65Signer::from_pkcs8_der(&seed).err(),
        Some(SignError::NotMlDsa)
    );
    for text in [
        pem("PRIVATE KEY", &other),
        pem("EC PRIVATE KEY", &pkcs8(&seed, 0x12)),
        "no key here".to_string(),
    ] {
        assert_eq!(
            MlDsa65Signer::from_pkcs8_pem(text.as_bytes()).err(),
            Some(SignError::NotMlDsa)
        );
    }
}
