use dkms::crypto::link_mac::{tag, verify, MacError, TAG_INIT, TAG_LEN, TAG_NOTIFY, TAG_RESP};

const PSK: &[u8] = b"a-32-byte-or-any-length-psk-value";

fn t(kind: &[u8], epoch: u32, s: u32, r: u32, blob: &[u8]) -> Vec<u8> {
    tag(PSK, kind, epoch, s, r, blob, "ml-kem-768", 1024)
}
fn v(kind: &[u8], epoch: u32, s: u32, r: u32, blob: &[u8], mac: &[u8]) -> Result<(), MacError> {
    verify(PSK, kind, epoch, s, r, blob, "ml-kem-768", 1024, mac)
}

#[test]
fn round_trip_and_len() {
    let blob = vec![0xAA; 1184];
    let m = t(&TAG_INIT, 7, 1, 2, &blob);
    assert_eq!(m.len(), TAG_LEN);
    assert!(v(&TAG_INIT, 7, 1, 2, &blob, &m).is_ok());
}

#[test]
fn rejects_wrong_psk_epoch_ids_blob() {
    let blob = vec![0xBB; 64];
    let m = t(&TAG_INIT, 7, 1, 2, &blob);
    assert_eq!(
        verify(b"other", &TAG_INIT, 7, 1, 2, &blob, "ml-kem-768", 1024, &m),
        Err(MacError::Invalid)
    );
    assert_eq!(v(&TAG_INIT, 8, 1, 2, &blob, &m), Err(MacError::Invalid));
    assert_eq!(v(&TAG_INIT, 7, 2, 1, &blob, &m), Err(MacError::Invalid));
    let mut b2 = blob.clone();
    b2[0] ^= 0xFF;
    assert_eq!(v(&TAG_INIT, 7, 1, 2, &b2, &m), Err(MacError::Invalid));
}

#[test]
fn domain_tags_dont_cross() {
    let blob = vec![1, 2, 3];
    let m = t(&TAG_INIT, 1, 1, 2, &blob);
    assert_eq!(v(&TAG_RESP, 1, 1, 2, &blob, &m), Err(MacError::Invalid));
    assert_eq!(v(&TAG_NOTIFY, 1, 1, 2, &blob, &m), Err(MacError::Invalid));
}

#[test]
fn suite_and_key_size_are_bound() {
    let blob = vec![9; 8];
    let m = tag(PSK, &TAG_INIT, 3, 1, 2, &blob, "ml-kem-768", 1024);
    assert_eq!(
        verify(PSK, &TAG_INIT, 3, 1, 2, &blob, "ml-kem-512", 1024, &m),
        Err(MacError::Invalid)
    );
    assert_eq!(
        verify(PSK, &TAG_INIT, 3, 1, 2, &blob, "ml-kem-768", 256, &m),
        Err(MacError::Invalid)
    );
}

#[test]
fn link_mac_wrong_length_mac_rejected_cleanly() {
    let blob = vec![0; 4];
    assert_eq!(v(&TAG_INIT, 1, 1, 2, &blob, &[0u8; 16]), Err(MacError::Invalid));
    assert_eq!(v(&TAG_INIT, 1, 1, 2, &blob, &[0u8; 64]), Err(MacError::Invalid));
}
