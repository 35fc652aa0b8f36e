use dkms::crypto::aead::{
    open, open_detached, seal, seal_detached, AeadError, SealedMessage, KEY_LEN, NONCE_LEN, TAG_LEN,
};
use dkms::crypto::pqc::{kem_for, suite, Kem};

#[test]
fn detached_round_trip_keeps_the_ciphertext_length() {
    let key = [7u8; KEY_LEN];
    let nonce = [3u8; NONCE_LEN];
    let pt = vec![0xABu8; 32];
    let (ct, tag) = seal_detached(&key, &nonce, &pt, b"aad").unwrap();
    assert_eq!(ct.len(), pt.len(), "el detached no debe alargar el payload");
    assert_eq!(tag.len(), TAG_LEN);
    assert_eq!(open_detached(&key, &nonce, &ct, &tag, b"aad").unwrap(), pt);
}

#[test]
fn detached_catches_tampering_and_wrong_aad() {
    let key = [7u8; KEY_LEN];
    let nonce = [3u8; NONCE_LEN];
    let (mut ct, tag) = seal_detached(&key, &nonce, b"hola", b"aad").unwrap();
    assert!(open_detached(&key, &nonce, &ct, &tag, b"otro").is_err(), "aad");
    ct[0] ^= 0xFF;
    assert!(open_detached(&key, &nonce, &ct, &tag, b"aad").is_err(), "ct");
    let (ct2, mut tag2) = seal_detached(&key, &nonce, b"hola", b"aad").unwrap();
    tag2[0] ^= 0xFF;
    assert!(open_detached(&key, &nonce, &ct2, &tag2, b"aad").is_err(), "tag");
    let mut n2 = nonce;
    n2[0] ^= 0xFF;
    assert!(open_detached(&key, &n2, &ct2, &tag, b"aad").is_err(), "nonce");
}

#[test]
fn detached_and_attached_agree() {
    let key = [9u8; KEY_LEN];
    let sealed = seal(&key, b"mensaje", b"aad").unwrap();
    let (ct, tag) = seal_detached(&key, &sealed.nonce, b"mensaje", b"aad").unwrap();
    assert_eq!(&sealed.ciphertext[..ct.len()], &ct[..]);
    assert_eq!(&sealed.ciphertext[ct.len()..], &tag[..]);
}


#[test]
fn seal_open_round_trip() {
    let key = [0x42u8; KEY_LEN];
    let sealed = seal(&key, b"hello world", b"hdr").unwrap();
    let pt = open(&key, &sealed, b"hdr").unwrap();
    assert_eq!(pt, b"hello world");
}

#[test]
fn wrong_aad_fails() {
    let key = [0x42u8; KEY_LEN];
    let sealed = seal(&key, b"hello", b"hdr").unwrap();
    assert!(matches!(
        open(&key, &sealed, b"NOPE"),
        Err(AeadError::Decrypt)
    ));
}

#[test]
fn wrong_key_fails() {
    let key1 = [0x01u8; KEY_LEN];
    let key2 = [0x02u8; KEY_LEN];
    let sealed = seal(&key1, b"hi", &[]).unwrap();
    assert!(matches!(open(&key2, &sealed, &[]), Err(AeadError::Decrypt)));
}

#[test]
fn tampered_ciphertext_fails() {
    let key = [0u8; KEY_LEN];
    let mut sealed = seal(&key, b"hello", &[]).unwrap();
    sealed.ciphertext[0] ^= 0x01;
    assert!(matches!(open(&key, &sealed, &[]), Err(AeadError::Decrypt)));
}

#[test]
fn serialize_round_trip() {
    let key = [0u8; KEY_LEN];
    let sealed = seal(&key, b"data", &[]).unwrap();
    let bytes = sealed.to_bytes();
    let restored = SealedMessage::from_bytes(&bytes).unwrap();
    assert_eq!(sealed, restored);
    let pt = open(&key, &restored, &[]).unwrap();
    assert_eq!(pt, b"data");
}

#[test]
fn bad_key_length_rejected() {
    let err = seal(&[0u8; 16], b"x", &[]).unwrap_err();
    assert!(matches!(err, AeadError::BadKeyLen(16)));
}

#[test]
fn kem_dem_round_trip() {
    let kem = kem_for(suite::ML_KEM_768).unwrap();
    let kp = kem.keygen().unwrap();
    let enc = kem.encap(&kp.public).unwrap();
    let sealed = seal(&enc.shared_secret, b"onion payload", b"orr-hdr").unwrap();

    let ss = kem.decap(&kp.secret, &enc.ciphertext).unwrap();
    let pt = open(&ss, &sealed, b"orr-hdr").unwrap();
    assert_eq!(pt, b"onion payload");
}
