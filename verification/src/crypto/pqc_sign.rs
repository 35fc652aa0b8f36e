//! ML-DSA-65 signatures over handshakes and public-key announcements.
use crate::bytes::{lemma_lp16_split, lemma_split_equal, lp16, push_all, push_lp16};
use crate::crypto::link_mac::{
    handshake, handshake_bytes, handshake_message_binds_every_field, HandshakeView,
};
use crate::pem::{key_of_pem, pem_key, KeyKind};
use crate::text::lemma_utf8_injective;
use ml_dsa::pkcs8::DecodePrivateKey;
use ml_dsa::signature::{Keypair, Signer, Verifier};
use ml_dsa::{
    EncodedSignature, EncodedVerifyingKey, Generate, KeyExport, MlDsa65, Seed, Signature,
    SigningKey, VerifyingKey,
};
use vstd::prelude::*;
use vstd::string::*;
use vstd::utf8::*;

verus! {

/// Name of the signature suite.
pub const ML_DSA_65: &'static str = "ml-dsa-65";

/// Length of the seed that a private key is kept as.
pub const SEED_LEN: usize = 32;

pub const VERIFYING_KEY_LEN: usize = 1952;

pub const SIGNATURE_LEN: usize = 3309;

/// `ORRPUBKEY`
pub const TAG_ORR_PUBKEY: [u8; 9] = [0x4F, 0x52, 0x52, 0x50, 0x55, 0x42, 0x4B, 0x45, 0x59];

#[derive(Debug, Clone, Copy, PartialEq, Eq, Structural)]
pub enum SignError {
    BadLength,
    Invalid,
    NotMlDsa,
}

/// The verification key that ML-DSA-65 derives from a seed.
pub uninterp spec fn ml_dsa_key_of(seed: Seq<u8>) -> Seq<u8>;

/// The deterministic ML-DSA-65 signature of `msg` with the key of `seed`.
pub uninterp spec fn ml_dsa_signature_of(seed: Seq<u8>, msg: Seq<u8>) -> Seq<u8>;

/// Whether ML-DSA-65 takes `sig` for a signature of `msg` by the key `vk`.
pub uninterp spec fn ml_dsa_accepts(vk: Seq<u8>, msg: Seq<u8>, sig: Seq<u8>) -> bool;

/// The seed that a PKCS#8 document holds, if it is an ML-DSA-65 key in seed form.
pub uninterp spec fn pkcs8_seed(der: Seq<u8>) -> Option<Seq<u8>>;

/// The PKCS#8 document that is the private key of a PEM text, if it is one.
pub open spec fn pem_pkcs8(pem: Seq<u8>) -> Option<Seq<u8>> {
    match pem_key(pem) {
        Ok(k) => if k.kind == KeyKind::Pkcs8 {
            Some(k.der)
        } else {
            None
        },
        Err(_) => None,
    }
}

/// `Generate::generate` of `ml_dsa::SigningKey<MlDsa65>`: a random seed and the
/// verification key that belongs to it.
#[verifier::external_body]
fn ml_dsa_generate() -> (r: (Vec<u8>, Vec<u8>))
    ensures
        r.0@.len() == SEED_LEN,
        r.1@ == ml_dsa_key_of(r.0@),
        r.1@.len() == VERIFYING_KEY_LEN,
{
    let sk = SigningKey::<MlDsa65>::generate();
    (sk.to_bytes().to_vec(), sk.verifying_key().encode().to_vec())
}

/// `Keypair::verifying_key` of the `ml_dsa::SigningKey<MlDsa65>` of a seed.
#[verifier::external_body]
fn ml_dsa_key(seed: &[u8]) -> (r: Vec<u8>)
    requires
        seed@.len() == SEED_LEN,
    ensures
        r@ == ml_dsa_key_of(seed@),
        r@.len() == VERIFYING_KEY_LEN,
{
    let seed = Seed::try_from(seed).expect("length was tested");
    SigningKey::<MlDsa65>::from_seed(&seed).verifying_key().encode().to_vec()
}

/// `Signer::sign` of the `ml_dsa::SigningKey<MlDsa65>` of a seed, which is the
/// deterministic variant with an empty context. The key of the seed accepts
/// what it signed. (The signer gives up only when rejection sampling has used
/// up every nonce.)
#[verifier::external_body]
fn ml_dsa_sign(seed: &[u8], msg: &[u8]) -> (r: Vec<u8>)
    requires
        seed@.len() == SEED_LEN,
    ensures
        r@ == ml_dsa_signature_of(seed@, msg@),
        r@.len() == SIGNATURE_LEN,
        ml_dsa_accepts(ml_dsa_key_of(seed@), msg@, r@),
{
    let seed = Seed::try_from(seed).expect("length was tested");
    SigningKey::<MlDsa65>::from_seed(&seed).sign(msg).encode().to_vec()
}

/// `Verifier::verify` of `ml_dsa::VerifyingKey<MlDsa65>`. A signature that does
/// not decode is not accepted.
#[verifier::external_body]
fn ml_dsa_check(vk: &[u8], msg: &[u8], sig: &[u8]) -> (r: bool)
    requires
        vk@.len() == VERIFYING_KEY_LEN,
        sig@.len() == SIGNATURE_LEN,
    ensures
        r == ml_dsa_accepts(vk@, msg@, sig@),
{
    let enc = EncodedVerifyingKey::<MlDsa65>::try_from(vk).expect("length was tested");
    let sig = EncodedSignature::<MlDsa65>::try_from(sig).expect("length was tested");
    match Signature::<MlDsa65>::decode(&sig) {
        Some(sig) => VerifyingKey::<MlDsa65>::decode(&enc).verify(msg, &sig).is_ok(),
        None => false,
    }
}

/// `DecodePrivateKey::from_pkcs8_der` of `ml_dsa::SigningKey<MlDsa65>`, which
/// takes keys in seed form only; the key is handed on as its seed of 32 bytes.
#[verifier::external_body]
fn ml_dsa_seed_of_pkcs8(der: &[u8]) -> (r: Option<Vec<u8>>)
    ensures
        match r {
            Some(s) => pkcs8_seed(der@) == Some(s@) && s@.len() == SEED_LEN,
            None => pkcs8_seed(der@) is None,
        },
{
    SigningKey::<MlDsa65>::from_pkcs8_der(der).ok().map(|sk| sk.to_bytes().to_vec())
}

/// The signing key of a node certificate.
pub struct MlDsa65Signer {
    seed: Vec<u8>,
}

impl MlDsa65Signer {
    #[verifier::type_invariant]
    spec fn inv(self) -> bool {
        self.seed@.len() == SEED_LEN
    }

    /// The seed of the key.
    pub closed spec fn seed(self) -> Seq<u8> {
        self.seed@
    }

    /// From a PKCS#8 document in seed form.
    pub fn from_pkcs8_der(der: &[u8]) -> (r: Result<Self, SignError>)
        ensures
            match r {
                Ok(s) => pkcs8_seed(der@) == Some(s.seed()),
                Err(e) => pkcs8_seed(der@) is None && e == SignError::NotMlDsa,
            },
    {
        match ml_dsa_seed_of_pkcs8(der) {
            Some(seed) => Ok(MlDsa65Signer { seed }),
            None => Err(SignError::NotMlDsa),
        }
    }

    /// From a PEM text. A key of another kind is refused.
    pub fn from_pkcs8_pem(pem: &[u8]) -> (r: Result<Self, SignError>)
        ensures
            match r {
                Ok(s) => pem_pkcs8(pem@) is Some && pkcs8_seed(pem_pkcs8(pem@)->0) == Some(
                    s.seed(),
                ),
                Err(e) => {
                    &&& pem_pkcs8(pem@) is None || pkcs8_seed(pem_pkcs8(pem@)->0) is None
                    &&& e == SignError::NotMlDsa
                },
            },
    {
        match key_of_pem(pem) {
            Ok(k) => if k.kind == KeyKind::Pkcs8 {
                Self::from_pkcs8_der(&k.der)
            } else {
                Err(SignError::NotMlDsa)
            },
            Err(_) => Err(SignError::NotMlDsa),
        }
    }

    pub fn verifying_key(&self) -> (r: Vec<u8>)
        ensures
            r@ == ml_dsa_key_of(self.seed()),
            r@.len() == VERIFYING_KEY_LEN,
    {
        proof {
            use_type_invariant(self);
        }
        ml_dsa_key(&self.seed)
    }

    pub fn sign(&self, msg: &[u8]) -> (r: Vec<u8>)
        ensures
            r@ == ml_dsa_signature_of(self.seed(), msg@),
            r@.len() == SIGNATURE_LEN,
            ml_dsa_accepts(ml_dsa_key_of(self.seed()), msg@, r@),
    {
        proof {
            use_type_invariant(self);
        }
        ml_dsa_sign(&self.seed, msg)
    }
}

/// A signature key pair as bytes.
pub struct SignKeypair {
    pub secret_seed: Vec<u8>,
    pub verifying_key: Vec<u8>,
}

/// A fresh ML-DSA-65 key pair.
pub fn keygen() -> (r: SignKeypair)
    ensures
        r.secret_seed@.len() == SEED_LEN,
        r.verifying_key@.len() == VERIFYING_KEY_LEN,
        r.verifying_key@ == ml_dsa_key_of(r.secret_seed@),
{
    let (secret_seed, verifying_key) = ml_dsa_generate();
    SignKeypair { secret_seed, verifying_key }
}

/// Signs `msg` with the key of a seed. The key of that seed accepts it.
pub fn sign(secret_seed: &[u8], msg: &[u8]) -> (r: Result<Vec<u8>, SignError>)
    ensures
        match r {
            Ok(s) => {
                &&& secret_seed@.len() == SEED_LEN
                &&& s@ == ml_dsa_signature_of(secret_seed@, msg@)
                &&& s@.len() == SIGNATURE_LEN
                &&& ml_dsa_accepts(ml_dsa_key_of(secret_seed@), msg@, s@)
            },
            Err(e) => secret_seed@.len() != SEED_LEN && e == SignError::BadLength,
        },
{
    if secret_seed.len() != SEED_LEN {
        return Err(SignError::BadLength);
    }
    Ok(ml_dsa_sign(secret_seed, msg))
}

/// What [`verify`] says of a signature.
pub open spec fn verdict(verifying_key: Seq<u8>, msg: Seq<u8>, sig: Seq<u8>) -> Result<
    (),
    SignError,
> {
    if verifying_key.len() != VERIFYING_KEY_LEN || sig.len() != SIGNATURE_LEN {
        Err(SignError::BadLength)
    } else if ml_dsa_accepts(verifying_key, msg, sig) {
        Ok(())
    } else {
        Err(SignError::Invalid)
    }
}

/// Verifies `sig` over `msg` with a verification key.
pub fn verify(verifying_key: &[u8], msg: &[u8], sig: &[u8]) -> (r: Result<(), SignError>)
    ensures
        r == verdict(verifying_key@, msg@, sig@),
{
    if verifying_key.len() != VERIFYING_KEY_LEN || sig.len() != SIGNATURE_LEN {
        return Err(SignError::BadLength);
    }
    if ml_dsa_check(verifying_key, msg, sig) {
        Ok(())
    } else {
        Err(SignError::Invalid)
    }
}

/// Signs a handshake message with the key of a seed.
pub fn sign_handshake(
    secret_seed: &[u8],
    tag: &[u8],
    epoch: u32,
    sender_id: u32,
    receiver_id: u32,
    blob: &[u8],
    suite_id: &str,
    key_size_bits: u32,
) -> (r: Result<Vec<u8>, SignError>)
    ensures
        ({
            let msg = handshake(
                tag@,
                epoch,
                sender_id,
                receiver_id,
                blob@,
                suite_id@,
                key_size_bits,
            ).message();
            match r {
                Ok(s) => {
                    &&& secret_seed@.len() == SEED_LEN
                    &&& s@ == ml_dsa_signature_of(secret_seed@, msg)
                    &&& s@.len() == SIGNATURE_LEN
                    &&& ml_dsa_accepts(ml_dsa_key_of(secret_seed@), msg, s@)
                },
                Err(e) => secret_seed@.len() != SEED_LEN && e == SignError::BadLength,
            }
        }),
{
    let msg = handshake_bytes(tag, epoch, sender_id, receiver_id, blob, suite_id, key_size_bits);
    sign(secret_seed, &msg)
}

/// Verifies the signature of a handshake message.
pub fn verify_handshake(
    verifying_key: &[u8],
    tag: &[u8],
    epoch: u32,
    sender_id: u32,
    receiver_id: u32,
    blob: &[u8],
    suite_id: &str,
    key_size_bits: u32,
    sig: &[u8],
) -> (r: Result<(), SignError>)
    ensures
        r == verdict(
            verifying_key@,
            handshake(
                tag@,
                epoch,
                sender_id,
                receiver_id,
                blob@,
                suite_id@,
                key_size_bits,
            ).message(),
            sig@,
        ),
{
    let msg = handshake_bytes(tag, epoch, sender_id, receiver_id, blob, suite_id, key_size_bits);
    verify(verifying_key, &msg, sig)
}

/// Signs a handshake message with the key of a node certificate.
pub fn sign_handshake_with(
    signer: &MlDsa65Signer,
    tag: &[u8],
    epoch: u32,
    sender_id: u32,
    receiver_id: u32,
    blob: &[u8],
    suite_id: &str,
    key_size_bits: u32,
) -> (r: Vec<u8>)
    ensures
        ({
            let msg = handshake(
                tag@,
                epoch,
                sender_id,
                receiver_id,
                blob@,
                suite_id@,
                key_size_bits,
            ).message();
            &&& r@ == ml_dsa_signature_of(signer.seed(), msg)
            &&& r@.len() == SIGNATURE_LEN
            &&& ml_dsa_accepts(ml_dsa_key_of(signer.seed()), msg, r@)
        }),
{
    let msg = handshake_bytes(tag, epoch, sender_id, receiver_id, blob, suite_id, key_size_bits);
    signer.sign(&msg)
}

/// A signature is not taken for that of another handshake unless ML-DSA takes it for
/// that of another message: a handshake that differs in any field has other canonical
/// bytes. (That ML-DSA does not is a matter of how hard it is to find such a
/// signature; there are some.)
pub proof fn altered_handshake_is_another_message(
    verifying_key: Seq<u8>,
    signed: HandshakeView,
    altered: HandshakeView,
    sig: Seq<u8>,
)
    requires
        signed.fits(),
        altered.fits(),
        signed.tag.len() == altered.tag.len(),
        signed != altered,
        verdict(verifying_key, signed.message(), sig) is Ok,
    ensures
        altered.message() != signed.message(),
        verdict(verifying_key, altered.message(), sig) == (if ml_dsa_accepts(
            verifying_key,
            altered.message(),
            sig,
        ) {
            Ok::<(), SignError>(())
        } else {
            Err(SignError::Invalid)
        }),
{
    if altered.message() == signed.message() {
        handshake_message_binds_every_field(signed, altered);
    }
}

/// The canonical bytes of a public-key announcement.
pub open spec fn announcement(orr_id: Seq<char>, suite: Seq<char>, public_key: Seq<u8>) -> Seq<u8> {
    TAG_ORR_PUBKEY@ + lp16(encode_utf8(orr_id)) + lp16(encode_utf8(suite)) + lp16(public_key)
}

/// Announcements with the same canonical bytes are the same in every field.
pub proof fn announcement_binds_every_field(
    id_a: Seq<char>,
    suite_a: Seq<char>,
    key_a: Seq<u8>,
    id_b: Seq<char>,
    suite_b: Seq<char>,
    key_b: Seq<u8>,
)
    requires
        announcement(id_a, suite_a, key_a) == announcement(id_b, suite_b, key_b),
        encode_utf8(id_a).len() <= u16::MAX,
        encode_utf8(suite_a).len() <= u16::MAX,
        key_a.len() <= u16::MAX,
        encode_utf8(id_b).len() <= u16::MAX,
        encode_utf8(suite_b).len() <= u16::MAX,
        key_b.len() <= u16::MAX,
    ensures
        id_a == id_b,
        suite_a == suite_b,
        key_a == key_b,
{
    let none = Seq::<u8>::empty();
    let ka = lp16(key_a) + none;
    let kb = lp16(key_b) + none;
    let sa = lp16(encode_utf8(suite_a)) + ka;
    let sb = lp16(encode_utf8(suite_b)) + kb;
    let ia = lp16(encode_utf8(id_a)) + sa;
    let ib = lp16(encode_utf8(id_b)) + sb;
    assert(announcement(id_a, suite_a, key_a) =~= TAG_ORR_PUBKEY@ + ia);
    assert(announcement(id_b, suite_b, key_b) =~= TAG_ORR_PUBKEY@ + ib);
    lemma_split_equal(TAG_ORR_PUBKEY@, ia, TAG_ORR_PUBKEY@, ib);
    lemma_lp16_split(encode_utf8(id_a), sa, encode_utf8(id_b), sb);
    lemma_lp16_split(encode_utf8(suite_a), ka, encode_utf8(suite_b), kb);
    lemma_lp16_split(key_a, none, key_b, none);
    lemma_utf8_injective(id_a, id_b);
    lemma_utf8_injective(suite_a, suite_b);
}

fn announcement_bytes(orr_id: &str, suite: &str, public_key: &[u8]) -> (r: Vec<u8>)
    ensures
        r@ == announcement(orr_id@, suite@, public_key@),
{
    let mut m: Vec<u8> = Vec::new();
    push_all(&mut m, &TAG_ORR_PUBKEY);
    push_lp16(&mut m, orr_id.as_bytes());
    push_lp16(&mut m, suite.as_bytes());
    push_lp16(&mut m, public_key);
    assert(m@ =~= announcement(orr_id@, suite@, public_key@));
    m
}

/// Signs the announcement of a public key with the key of a node certificate.
pub fn sign_orr_pubkey_with(
    signer: &MlDsa65Signer,
    orr_id: &str,
    suite: &str,
    public_key: &[u8],
) -> (r: Vec<u8>)
    ensures
        r@ == ml_dsa_signature_of(signer.seed(), announcement(orr_id@, suite@, public_key@)),
        r@.len() == SIGNATURE_LEN,
        ml_dsa_accepts(
            ml_dsa_key_of(signer.seed()),
            announcement(orr_id@, suite@, public_key@),
            r@,
        ),
{
    signer.sign(&announcement_bytes(orr_id, suite, public_key))
}

/// Signs the announcement of a public key with the key of a seed.
pub fn sign_orr_pubkey(secret_seed: &[u8], orr_id: &str, suite: &str, public_key: &[u8]) -> (r:
    Result<Vec<u8>, SignError>)
    ensures
        match r {
            Ok(s) => {
                &&& secret_seed@.len() == SEED_LEN
                &&& s@ == ml_dsa_signature_of(
                    secret_seed@,
                    announcement(orr_id@, suite@, public_key@),
                )
                &&& s@.len() == SIGNATURE_LEN
                &&& ml_dsa_accepts(
                    ml_dsa_key_of(secret_seed@),
                    announcement(orr_id@, suite@, public_key@),
                    s@,
                )
            },
            Err(e) => secret_seed@.len() != SEED_LEN && e == SignError::BadLength,
        },
{
    sign(secret_seed, &announcement_bytes(orr_id, suite, public_key))
}

/// Verifies the announcement of a public key.
pub fn verify_orr_pubkey(
    verifying_key: &[u8],
    orr_id: &str,
    suite: &str,
    public_key: &[u8],
    sig: &[u8],
) -> (r: Result<(), SignError>)
    ensures
        r == verdict(verifying_key@, announcement(orr_id@, suite@, public_key@), sig@),
{
    verify(verifying_key, &announcement_bytes(orr_id, suite, public_key), sig)
}

/// A signature is looked at only if it and the key have their lengths, and then it
/// counts exactly if ML-DSA accepts it.
pub proof fn only_accepted_signatures_count(verifying_key: Seq<u8>, msg: Seq<u8>, sig: Seq<u8>)
    ensures
        verdict(verifying_key, msg, sig) is Ok ==> verifying_key.len() == 1952 && sig.len() == 3309
            && ml_dsa_accepts(verifying_key, msg, sig),
        verifying_key.len() == 1952 && sig.len() == 3309 ==> (verdict(verifying_key, msg, sig) is Ok
            <==> ml_dsa_accepts(verifying_key, msg, sig)),
        verdict(verifying_key, msg, sig) == Err::<(), SignError>(SignError::BadLength)
            <==> verifying_key.len() != 1952 || sig.len() != 3309,
{
}

} // verus!
