//! HMAC-SHA256 authentication of the link handshake with a pre-shared key.
use crate::bytes::{
    be32, lemma_be32_injective, lemma_lp16_split, lemma_split_equal, lp16, push_all, push_be32,
    push_lp16,
};
use crate::crypto::primitives::{hmac_sha256, hmac_sha256_matches, hmac_sha256_of};
use crate::text::lemma_utf8_injective;
use vstd::prelude::*;
use vstd::string::*;
use vstd::utf8::*;

verus! {

/// `QKCINIT`
pub const TAG_INIT: [u8; 7] = [0x51, 0x4B, 0x43, 0x49, 0x4E, 0x49, 0x54];

/// `QKCRESP`
pub const TAG_RESP: [u8; 7] = [0x51, 0x4B, 0x43, 0x52, 0x45, 0x53, 0x50];

/// `QKCNOTIFY`
pub const TAG_NOTIFY: [u8; 9] = [0x51, 0x4B, 0x43, 0x4E, 0x4F, 0x54, 0x49, 0x46, 0x59];

/// Length of a handshake tag in bytes.
pub const TAG_LEN: usize = 32;

#[derive(Debug, Clone, Copy, PartialEq, Eq, Structural)]
pub enum MacError {
    Invalid,
}

/// The fields of a handshake message that are authenticated.
#[verifier::ext_equal]
pub struct HandshakeView {
    pub tag: Seq<u8>,
    pub epoch: u32,
    pub sender_id: u32,
    pub receiver_id: u32,
    pub blob: Seq<u8>,
    pub suite_id: Seq<char>,
    pub key_size_bits: u32,
}

impl HandshakeView {
    /// The canonical bytes of the message.
    pub open spec fn message(self) -> Seq<u8> {
        self.tag + be32(self.epoch) + be32(self.sender_id) + be32(self.receiver_id) + lp16(
            self.blob,
        ) + lp16(encode_utf8(self.suite_id)) + be32(self.key_size_bits)
    }

    /// Whether the variable fields are short enough for their length prefix.
    pub open spec fn fits(self) -> bool {
        self.blob.len() <= u16::MAX && encode_utf8(self.suite_id).len() <= u16::MAX
    }
}

pub open spec fn handshake(
    tag: Seq<u8>,
    epoch: u32,
    sender_id: u32,
    receiver_id: u32,
    blob: Seq<u8>,
    suite_id: Seq<char>,
    key_size_bits: u32,
) -> HandshakeView {
    HandshakeView { tag, epoch, sender_id, receiver_id, blob, suite_id, key_size_bits }
}

/// Two handshakes of one domain with the same canonical bytes are the same in
/// every field.
pub proof fn handshake_message_binds_every_field(a: HandshakeView, b: HandshakeView)
    requires
        a.fits(),
        b.fits(),
        a.tag.len() == b.tag.len(),
        a.message() == b.message(),
    ensures
        a == b,
{
    let ka = be32(a.key_size_bits);
    let kb = be32(b.key_size_bits);
    let sa = lp16(encode_utf8(a.suite_id)) + ka;
    let sb = lp16(encode_utf8(b.suite_id)) + kb;
    let ba = lp16(a.blob) + sa;
    let bb = lp16(b.blob) + sb;
    let ra = be32(a.receiver_id) + ba;
    let rb = be32(b.receiver_id) + bb;
    let na = be32(a.sender_id) + ra;
    let nb = be32(b.sender_id) + rb;
    let ea = be32(a.epoch) + na;
    let eb = be32(b.epoch) + nb;
    assert(a.message() =~= a.tag + ea);
    assert(b.message() =~= b.tag + eb);
    lemma_split_equal(a.tag, ea, b.tag, eb);
    lemma_split_equal(be32(a.epoch), na, be32(b.epoch), nb);
    lemma_split_equal(be32(a.sender_id), ra, be32(b.sender_id), rb);
    lemma_split_equal(be32(a.receiver_id), ba, be32(b.receiver_id), bb);
    lemma_be32_injective(a.epoch, b.epoch);
    lemma_be32_injective(a.sender_id, b.sender_id);
    lemma_be32_injective(a.receiver_id, b.receiver_id);
    lemma_lp16_split(a.blob, sa, b.blob, sb);
    lemma_lp16_split(encode_utf8(a.suite_id), ka, encode_utf8(b.suite_id), kb);
    lemma_be32_injective(a.key_size_bits, b.key_size_bits);
    lemma_utf8_injective(a.suite_id, b.suite_id);
}

/// The canonical bytes of a handshake message.
pub fn handshake_bytes(
    tag: &[u8],
    epoch: u32,
    sender_id: u32,
    receiver_id: u32,
    blob: &[u8],
    suite_id: &str,
    key_size_bits: u32,
) -> (r: Vec<u8>)
    ensures
        r@ == handshake(
            tag@,
            epoch,
            sender_id,
            receiver_id,
            blob@,
            suite_id@,
            key_size_bits,
        ).message(),
{
    let mut m: Vec<u8> = Vec::new();
    push_all(&mut m, tag);
    push_be32(&mut m, epoch);
    push_be32(&mut m, sender_id);
    push_be32(&mut m, receiver_id);
    push_lp16(&mut m, blob);
    push_lp16(&mut m, suite_id.as_bytes());
    push_be32(&mut m, key_size_bits);
    assert(Seq::<u8>::empty() + tag@ =~= tag@);
    m
}

/// The tag of a handshake message. Blob and suite name must fit a two-byte
/// length.
pub fn tag(
    psk: &[u8],
    tag_kind: &[u8],
    epoch: u32,
    sender_id: u32,
    receiver_id: u32,
    blob: &[u8],
    suite_id: &str,
    key_size_bits: u32,
) -> (r: Vec<u8>)
    requires
        handshake(tag_kind@, epoch, sender_id, receiver_id, blob@, suite_id@, key_size_bits).fits(),
    ensures
        r@ == hmac_sha256_of(
            psk@,
            handshake(
                tag_kind@,
                epoch,
                sender_id,
                receiver_id,
                blob@,
                suite_id@,
                key_size_bits,
            ).message(),
        ),
        r@.len() == TAG_LEN,
{
    let m = handshake_bytes(tag_kind, epoch, sender_id, receiver_id, blob, suite_id, key_size_bits);
    let t = hmac_sha256(psk, &m);
    vstd::slice::slice_to_vec(&t)
}

/// Whether `mac` is the tag of the handshake message.
pub fn verify(
    psk: &[u8],
    tag_kind: &[u8],
    epoch: u32,
    sender_id: u32,
    receiver_id: u32,
    blob: &[u8],
    suite_id: &str,
    key_size_bits: u32,
    mac: &[u8],
) -> (r: Result<(), MacError>)
    requires
        handshake(tag_kind@, epoch, sender_id, receiver_id, blob@, suite_id@, key_size_bits).fits(),
    ensures
        r is Ok <==> mac@ == hmac_sha256_of(
            psk@,
            handshake(
                tag_kind@,
                epoch,
                sender_id,
                receiver_id,
                blob@,
                suite_id@,
                key_size_bits,
            ).message(),
        ),
        r is Err ==> r == Err::<(), MacError>(MacError::Invalid),
{
    let m = handshake_bytes(tag_kind, epoch, sender_id, receiver_id, blob, suite_id, key_size_bits);
    if hmac_sha256_matches(psk, &m, mac) {
        Ok(())
    } else {
        Err(MacError::Invalid)
    }
}

/// Where the fields of a handshake stand: behind the tag the epoch, who sends and who
/// receives, and the length of the blob; the key size closes it.
pub proof fn handshake_fields_have_their_places(h: HandshakeView)
    ensures
        ({
            let m = h.message();
            let t = h.tag.len() as int;
            &&& m.len() >= t + 20
            &&& m.take(t) == h.tag
            &&& m.subrange(t, t + 4) == be32(h.epoch)
            &&& m.subrange(t + 4, t + 8) == be32(h.sender_id)
            &&& m.subrange(t + 8, t + 12) == be32(h.receiver_id)
            &&& m.subrange(t + 14, t + 14 + h.blob.len()) == h.blob
            &&& m.skip(m.len() - 4) == be32(h.key_size_bits)
        }),
{
    let m = h.message();
    let t = h.tag.len() as int;
    assert(m.take(t) =~= h.tag);
    assert(m.subrange(t, t + 4) =~= be32(h.epoch));
    assert(m.subrange(t + 4, t + 8) =~= be32(h.sender_id));
    assert(m.subrange(t + 8, t + 12) =~= be32(h.receiver_id));
    assert(m.subrange(t + 14, t + 14 + h.blob.len()) =~= h.blob);
    assert(m.skip(m.len() - 4) =~= be32(h.key_size_bits));
}

} // verus!
