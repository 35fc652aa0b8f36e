//! The cryptographic primitives the library builds on, each behind a contract.
use aes_gcm::aead::{Aead, AeadCore, AeadInPlace, KeyInit, Payload};
use aes_gcm::Aes256Gcm;
use hkdf::Hkdf;
use hmac::{Hmac, Mac};
use rand::rngs::OsRng;
use rand::RngCore;
use sha2::{Digest, Sha256};
use vstd::prelude::*;
use zeroize::Zeroize;

verus! {

/// SHA-256 of `msg`.
pub uninterp spec fn sha256_of(msg: Seq<u8>) -> Seq<u8>;

/// `sha2::Sha256::digest`: 32 bytes that depend on the message alone.
#[verifier::external_body]
pub(crate) fn sha256(msg: &[u8]) -> (r: [u8; 32])
    ensures
        r@ == sha256_of(msg@),
{
    Sha256::digest(msg).into()
}

/// HMAC-SHA256 of `msg` under `key`.
pub uninterp spec fn hmac_sha256_of(key: Seq<u8>, msg: Seq<u8>) -> Seq<u8>;

/// `hmac::Hmac<Sha256>` fed with `msg` in one piece and finished: a tag of 32
/// bytes that depends on the key and the message alone. Any key length is taken.
#[verifier::external_body]
pub(crate) fn hmac_sha256(key: &[u8], msg: &[u8]) -> (r: [u8; 32])
    ensures
        r@ == hmac_sha256_of(key@, msg@),
{
    let mut mac = <Hmac<Sha256> as Mac>::new_from_slice(key).expect("any key length is valid");
    mac.update(msg);
    mac.finalize().into_bytes().into()
}

/// `Mac::verify_slice` of `hmac::Hmac<Sha256>`: whether `tag` is the whole tag
/// of `msg` under `key`. A tag of another length is refused.
#[verifier::external_body]
pub(crate) fn hmac_sha256_matches(key: &[u8], msg: &[u8], tag: &[u8]) -> (r: bool)
    ensures
        r == (tag@ == hmac_sha256_of(key@, msg@)),
{
    let mut mac = <Hmac<Sha256> as Mac>::new_from_slice(key).expect("any key length is valid");
    mac.update(msg);
    mac.verify_slice(tag).is_ok()
}

/// The first `len` bytes of HKDF-SHA256 over `ikm`, with `salt` and `info`.
pub uninterp spec fn hkdf_sha256_of(
    salt: Seq<u8>,
    ikm: Seq<u8>,
    info: Seq<u8>,
    len: nat,
) -> Seq<u8>;

/// `hkdf::Hkdf<Sha256>`: extract with `salt`, then expand with `info` to `len`
/// bytes. Expansion is refused beyond 255 blocks of 32 bytes.
#[verifier::external_body]
pub(crate) fn hkdf_sha256(salt: &[u8], ikm: &[u8], info: &[u8], len: usize) -> (r: Vec<u8>)
    requires
        len <= 255 * 32,
    ensures
        r@ == hkdf_sha256_of(salt@, ikm@, info@, len as nat),
        r@.len() == len,
{
    let mut okm = vec![0u8; len];
    Hkdf::<Sha256>::new(Some(salt), ikm).expand(info, &mut okm).expect("length within 255 blocks");
    okm
}

/// Ciphertext and tag that AES-256-GCM makes.
pub uninterp spec fn gcm_sealed(
    key: Seq<u8>,
    nonce: Seq<u8>,
    plaintext: Seq<u8>,
    aad: Seq<u8>,
) -> (Seq<u8>, Seq<u8>);

/// Plaintext that AES-256-GCM gives back, if the tag is the right one.
pub uninterp spec fn gcm_opened(
    key: Seq<u8>,
    nonce: Seq<u8>,
    ciphertext: Seq<u8>,
    aad: Seq<u8>,
    tag: Seq<u8>,
) -> Option<Seq<u8>>;

/// Most plaintext that one nonce's key stream covers, in bytes.
pub const GCM_STREAM: u64 = 0xF_FFFF_FFE0;

/// Largest plaintext and largest additional data that sealing looks at.
pub const GCM_PLAIN_MAX: u64 = 0x10_0000_0000;

/// Largest ciphertext that opening looks at.
pub const GCM_CIPHER_MAX: u64 = 0x10_0000_0010;

/// `encrypt_in_place_detached` of `aes_gcm::Aes256Gcm`. The ciphertext is as
/// long as the plaintext, and opening it with its tag gives the plaintext back.
/// Over-long inputs are refused; the few lengths between what a key stream
/// covers and what is refused make the cipher panic and are left out.
#[verifier::external_body]
pub(crate) fn gcm_seal_detached(
    key: &[u8],
    nonce: &[u8; 12],
    plaintext: &[u8],
    aad: &[u8],
) -> (r: Option<(Vec<u8>, [u8; 16])>)
    requires
        key@.len() == 32,
        plaintext@.len() <= GCM_STREAM || plaintext@.len() > GCM_PLAIN_MAX || aad@.len()
            > GCM_PLAIN_MAX,
    ensures
        match r {
            Some(p) => {
                &&& plaintext@.len() <= GCM_PLAIN_MAX && aad@.len() <= GCM_PLAIN_MAX
                &&& (p.0@, p.1@) == gcm_sealed(key@, nonce@, plaintext@, aad@)
                &&& p.0@.len() == plaintext@.len()
                &&& gcm_opened(key@, nonce@, p.0@, aad@, p.1@) == Some(plaintext@)
            },
            None => plaintext@.len() > GCM_PLAIN_MAX || aad@.len() > GCM_PLAIN_MAX,
        },
{
    let cipher = Aes256Gcm::new(key.into());
    let mut buf = plaintext.to_vec();
    let tag = cipher.encrypt_in_place_detached(nonce.into(), aad, &mut buf).ok()?;
    Some((buf, tag.into()))
}

/// `Aead::encrypt` of `aes_gcm::Aes256Gcm`: the detached ciphertext with its
/// tag of 16 bytes behind it. Lengths as in [`gcm_seal_detached`].
#[verifier::external_body]
pub(crate) fn gcm_seal(key: &[u8], nonce: &[u8; 12], plaintext: &[u8], aad: &[u8]) -> (r: Option<
    Vec<u8>,
>)
    requires
        key@.len() == 32,
        plaintext@.len() <= GCM_STREAM || plaintext@.len() > GCM_PLAIN_MAX || aad@.len()
            > GCM_PLAIN_MAX,
    ensures
        match r {
            Some(c) => {
                let s = gcm_sealed(key@, nonce@, plaintext@, aad@);
                &&& plaintext@.len() <= GCM_PLAIN_MAX && aad@.len() <= GCM_PLAIN_MAX
                &&& c@ == s.0 + s.1
                &&& s.0.len() == plaintext@.len()
                &&& s.1.len() == 16
                &&& gcm_opened(key@, nonce@, s.0, aad@, s.1) == Some(plaintext@)
            },
            None => plaintext@.len() > GCM_PLAIN_MAX || aad@.len() > GCM_PLAIN_MAX,
        },
{
    Aes256Gcm::new(key.into()).encrypt(nonce.into(), Payload { msg: plaintext, aad }).ok()
}

/// `decrypt_in_place_detached` of `aes_gcm::Aes256Gcm`. What opens was sealed
/// with the same key, nonce and additional data. The ciphertext is the plaintext
/// with the key stream of key and nonce added bit by bit, so that no other plaintext
/// of that length has this ciphertext.
#[verifier::external_body]
pub(crate) fn gcm_open_detached(
    key: &[u8],
    nonce: &[u8; 12],
    ciphertext: &[u8],
    aad: &[u8],
    tag: &[u8; 16],
) -> (r: Option<Vec<u8>>)
    requires
        key@.len() == 32,
        ciphertext@.len() <= GCM_STREAM || ciphertext@.len() > GCM_CIPHER_MAX || aad@.len()
            > GCM_PLAIN_MAX,
    ensures
        ciphertext@.len() > GCM_CIPHER_MAX || aad@.len() > GCM_PLAIN_MAX ==> r is None,
        ciphertext@.len() <= GCM_STREAM && aad@.len() <= GCM_PLAIN_MAX ==> match r {
            Some(p) => {
                &&& gcm_opened(key@, nonce@, ciphertext@, aad@, tag@) == Some(p@)
                &&& gcm_sealed(key@, nonce@, p@, aad@) == (ciphertext@, tag@)
                &&& p@.len() == ciphertext@.len()
                &&& forall|q: Seq<u8>|
                    q.len() == p@.len() && (#[trigger] gcm_sealed(key@, nonce@, q, aad@)).0
                        == ciphertext@ ==> q == p@
            },
            None => gcm_opened(key@, nonce@, ciphertext@, aad@, tag@) is None,
        },
{
    let mut buf = ciphertext.to_vec();
    let cipher = Aes256Gcm::new(key.into());
    cipher.decrypt_in_place_detached(nonce.into(), aad, &mut buf, tag.into()).ok()?;
    Some(buf)
}

/// `Aead::decrypt` of `aes_gcm::Aes256Gcm`: opens a ciphertext whose last 16
/// bytes are its tag, as [`gcm_open_detached`] does; one shorter than a tag is
/// refused.
#[verifier::external_body]
pub(crate) fn gcm_open(key: &[u8], nonce: &[u8; 12], ciphertext: &[u8], aad: &[u8]) -> (r: Option<
    Vec<u8>,
>)
    requires
        key@.len() == 32,
        ciphertext@.len() <= GCM_STREAM + 16 || ciphertext@.len() > GCM_CIPHER_MAX + 16
            || aad@.len() > GCM_PLAIN_MAX,
    ensures
        ciphertext@.len() < 16 ==> r is None,
        ciphertext@.len() > GCM_CIPHER_MAX + 16 || aad@.len() > GCM_PLAIN_MAX ==> r is None,
        16 <= ciphertext@.len() <= GCM_STREAM + 16 && aad@.len() <= GCM_PLAIN_MAX ==> {
            let n = ciphertext@.len() - 16;
            let ct = ciphertext@.subrange(0, n);
            let tag = ciphertext@.subrange(n, ciphertext@.len() as int);
            match r {
                Some(p) => {
                    &&& gcm_opened(key@, nonce@, ct, aad@, tag) == Some(p@)
                    &&& gcm_sealed(key@, nonce@, p@, aad@) == (ct, tag)
                    &&& p@.len() == n
                    &&& forall|q: Seq<u8>|
                        q.len() == n && (#[trigger] gcm_sealed(key@, nonce@, q, aad@)).0 == ct
                            ==> q == p@
                },
                None => gcm_opened(key@, nonce@, ct, aad@, tag) is None,
            }
        },
{
    Aes256Gcm::new(key.into()).decrypt(nonce.into(), Payload { msg: ciphertext, aad }).ok()
}

/// `AeadCore::generate_nonce` of `aes_gcm::Aes256Gcm` with the operating
/// system's random source: 12 random bytes, of which nothing else is known.
#[verifier::external_body]
pub(crate) fn gcm_random_nonce() -> (r: [u8; 12]) {
    Aes256Gcm::generate_nonce(&mut OsRng).into()
}

/// `rand::rngs::OsRng`'s `fill_bytes` on a buffer of `len` bytes: the length is
/// kept, the bytes are random. No buffer is longer than `isize::MAX`.
#[verifier::external_body]
pub(crate) fn random_bytes(len: usize) -> (r: Vec<u8>)
    requires
        len <= isize::MAX,
    ensures
        r@.len() == len,
{
    let mut buf = vec![0u8; len];
    OsRng.fill_bytes(&mut buf);
    buf
}

/// `Zeroize::zeroize` of a `Vec<u8>`: the bytes are overwritten, and none is left.
#[verifier::external_body]
pub(crate) fn wipe(b: &mut Vec<u8>)
    ensures
        final(b)@.len() == 0,
{
    b.zeroize();
}

/// `rand::random::<u32>`: any number may come.
#[verifier::external_body]
pub(crate) fn random_u32() -> (r: u32) {
    rand::random::<u32>()
}

} // verus!
