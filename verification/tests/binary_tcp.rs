use dkms::ipc::binary_tcp::{Frame, FIXED_PREFIX, FRAME_RECV};

#[test]
fn roundtrip_empty_payload() {
    let f = Frame {
        kind: FRAME_RECV,
        sender_id: 1,
        receiver_id: 2,
        dest_final: 2,
        key_size_bits: 256,
        key_ids: vec!["abcdefgh".into()],
        header_mp: vec![0x80],
        payload: vec![],
    };
    let buf = f.encode();
    let (_pref, body) = buf.split_at(FIXED_PREFIX);
    let f2 = Frame::decode_body(body).unwrap();
    assert_eq!(f.sender_id,     f2.sender_id);
    assert_eq!(f.receiver_id,   f2.receiver_id);
    assert_eq!(f.dest_final,    f2.dest_final);
    assert_eq!(f.key_size_bits, f2.key_size_bits);
    assert_eq!(f.key_ids,       f2.key_ids);
}
