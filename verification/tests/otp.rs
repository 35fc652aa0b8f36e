use dkms::crypto::ct_eq;
use dkms::crypto::otp::xor;

#[test]
fn xor_round_trips() {
    let pt = b"hello world".to_vec();
    let k  = b"01234567890abcdef".to_vec();
    let ct = xor(&pt, &k).unwrap();
    let pt2 = xor(&ct, &k).unwrap();
    assert_eq!(pt, pt2);
}

#[test]
fn ct_eq_compara_bien() {
    assert!(ct_eq(b"abc", b"abc"));
    assert!(!ct_eq(b"abc", b"abd"));
    assert!(!ct_eq(b"abc", b"ab"));
    assert!(ct_eq(b"", b""));
}
