//! Headers that travel with a delivery of transport key material.
use crate::bytes::{be32, lemma_lp32_split, lp32, push_all, push_lp32};
use crate::codec::{hex_bytes, hex_encode, hex_reads_back, hex_text};
use crate::crypto::primitives::{sha256, sha256_of};
use crate::text::lemma_utf8_injective;
use vstd::prelude::*;
use vstd::string::*;
use vstd::utf8::*;

verus! {

pub const HDR_MSG_TYPE: &'static str = "msg_type";

pub const HDR_KEY_ID: &'static str = "key_id";

pub const HDR_KEY_SIZE_BITS: &'static str = "key_size_bits";

pub const HDR_SAE_ORIGIN: &'static str = "sae_origin";

pub const HDR_ACK_ENDPOINT: &'static str = "ack_endpoint";

/// Which run of its process the sender is in.
pub const HDR_INCARNATION: &'static str = "incarnation";

/// Fingerprint of the key, see [`key_digest`].
pub const HDR_KEY_DIGEST: &'static str = "key_digest";

/// When the key was sent, in milliseconds since 1970.
pub const HDR_TIMESTAMP_MS: &'static str = "timestamp_ms";

pub const HDR_REQUEST_ID: &'static str = "request_id";

/// A delivery of transport key material.
pub const MSG_TYPE_DKMS_BUFFER: &'static str = "DKMS_BUFFER";

/// What the fingerprint of a key is taken of: the key's name, with its length,
/// and the key.
pub open spec fn digest_message(key_id: Seq<char>, key: Seq<u8>) -> Seq<u8> {
    lp32(encode_utf8(key_id)) + key
}

/// The fingerprint of a key under its name.
pub open spec fn digest_text(key_id: Seq<char>, key: Seq<u8>) -> Seq<char> {
    hex_text(sha256_of(digest_message(key_id, key)))
}

/// Fingerprint of a key. It shows whether both ends hold the same key, and it is
/// worth nothing for a key of another name.
pub fn key_digest(key_id: &str, key: &[u8]) -> (r: String)
    ensures
        r@ == digest_text(key_id@, key@),
{
    let mut msg: Vec<u8> = Vec::new();
    push_lp32(&mut msg, key_id.as_bytes());
    push_all(&mut msg, key);
    assert(msg@ =~= digest_message(key_id@, key@));
    let d = sha256(msg.as_slice());
    hex_encode(&d)
}

/// What a fingerprint is taken of tells both the name and the key.
pub proof fn digest_binds_name_and_key(a: Seq<char>, x: Seq<u8>, b: Seq<char>, y: Seq<u8>)
    requires
        digest_message(a, x) == digest_message(b, y),
        encode_utf8(a).len() <= u32::MAX,
        encode_utf8(b).len() <= u32::MAX,
    ensures
        a == b,
        x == y,
{
    lemma_lp32_split(encode_utf8(a), x, encode_utf8(b), y);
    lemma_utf8_injective(a, b);
}

/// A fingerprint is the SHA-256 of the key behind its name and the name's length, in
/// hexadecimal digits.
pub proof fn fingerprint_is_of_name_and_key(key_id: Seq<char>, key: Seq<u8>)
    ensures
        hex_bytes(digest_text(key_id, key)) == Some(
            sha256_of(be32(encode_utf8(key_id).len() as u32) + encode_utf8(key_id) + key),
        ),
{
    let msg = be32(encode_utf8(key_id).len() as u32) + encode_utf8(key_id) + key;
    assert(digest_message(key_id, key) =~= msg);
    hex_reads_back(sha256_of(msg));
}

} // verus!
