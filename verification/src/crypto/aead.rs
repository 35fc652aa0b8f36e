//! AES-256-GCM authenticated encryption.
use crate::bytes::{copy_range, push_all};
use crate::crypto::primitives::{
    gcm_open, gcm_open_detached, gcm_opened, gcm_random_nonce, gcm_seal, gcm_seal_detached,
    gcm_sealed, GCM_CIPHER_MAX, GCM_PLAIN_MAX, GCM_STREAM,
};
use crate::text::{decimal, decimal_text, join2};
use vstd::prelude::*;
use vstd::string::*;

verus! {

/// Length of a key in bytes.
pub const KEY_LEN: usize = 32;

/// Length of a nonce in bytes.
pub const NONCE_LEN: usize = 12;

/// Length of a tag in bytes.
pub const TAG_LEN: usize = 16;

#[derive(Debug, PartialEq, Eq, Structural)]
pub enum AeadError {
    BadKeyLen(usize),
    BadNonceLen(usize),
    Encrypt,
    Decrypt,
}

/// A nonce and the ciphertext it was used for, which ends in its tag.
#[derive(Debug, Clone, PartialEq, Eq)]
pub struct SealedMessage {
    pub nonce: [u8; NONCE_LEN],
    pub ciphertext: Vec<u8>,
}

impl SealedMessage {
    /// The bytes of the message: nonce, then ciphertext.
    pub open spec fn bytes(self) -> Seq<u8> {
        self.nonce@ + self.ciphertext@
    }

    pub fn to_bytes(&self) -> (r: Vec<u8>)
        ensures
            r@ == self.bytes(),
    {
        let mut out: Vec<u8> = Vec::new();
        push_all(&mut out, &self.nonce);
        push_all(&mut out, &self.ciphertext);
        assert(out@ =~= self.bytes());
        out
    }

    /// Takes apart what [`SealedMessage::to_bytes`] made. There must be a nonce
    /// and a tag at least.
    pub fn from_bytes(buf: &[u8]) -> (r: Result<Self, AeadError>)
        ensures
            match r {
                Ok(m) => buf@.len() >= NONCE_LEN + TAG_LEN && m.bytes() == buf@,
                Err(e) => buf@.len() < NONCE_LEN + TAG_LEN && e == AeadError::Decrypt,
            },
    {
        if buf.len() < NONCE_LEN + TAG_LEN {
            return Err(AeadError::Decrypt);
        }
        let mut nonce: [u8; NONCE_LEN] = [0u8; NONCE_LEN];
        let mut i: usize = 0;
        while i < NONCE_LEN
            invariant
                i <= NONCE_LEN <= buf@.len(),
                forall|j: int| 0 <= j < i ==> nonce@[j] == buf@[j],
            decreases NONCE_LEN - i,
        {
            nonce[i] = buf[i];
            i = i + 1;
        }
        let ciphertext = copy_range(buf, NONCE_LEN, buf.len() - NONCE_LEN);
        let m = SealedMessage { nonce, ciphertext };
        assert(m.bytes() =~= buf@);
        Ok(m)
    }
}

/// Two messages with the same bytes are the same.
pub proof fn sealed_message_bytes_are_unique(a: SealedMessage, b: SealedMessage)
    requires
        a.bytes() == b.bytes(),
    ensures
        a.nonce@ == b.nonce@,
        a.ciphertext@ == b.ciphertext@,
{
    crate::bytes::lemma_split_equal(a.nonce@, a.ciphertext@, b.nonce@, b.ciphertext@);
}

/// Lengths on which sealing is defined: within what a key stream covers, or so
/// long that the input is refused.
pub open spec fn sealable(plaintext: Seq<u8>, aad: Seq<u8>) -> bool {
    plaintext.len() <= GCM_STREAM || plaintext.len() > GCM_PLAIN_MAX || aad.len() > GCM_PLAIN_MAX
}

/// The same for opening a ciphertext without its tag.
pub open spec fn openable(ciphertext: Seq<u8>, aad: Seq<u8>) -> bool {
    ciphertext.len() <= GCM_STREAM || ciphertext.len() > GCM_CIPHER_MAX || aad.len()
        > GCM_PLAIN_MAX
}

/// Whether some plaintext has this ciphertext, but with another tag.
pub open spec fn wrongly_tagged(
    key: Seq<u8>,
    nonce: Seq<u8>,
    ciphertext: Seq<u8>,
    aad: Seq<u8>,
    tag: Seq<u8>,
) -> bool {
    exists|q: Seq<u8>|
        q.len() == ciphertext.len() && (#[trigger] gcm_sealed(key, nonce, q, aad)).0 == ciphertext
            && gcm_sealed(key, nonce, q, aad).1 != tag
}

/// Seals `plaintext` with a nonce of its own; `aad` is authenticated with it.
pub fn seal(key: &[u8], plaintext: &[u8], aad: &[u8]) -> (r: Result<SealedMessage, AeadError>)
    requires
        sealable(plaintext@, aad@),
    ensures
        match r {
            Ok(m) => {
                let s = gcm_sealed(key@, m.nonce@, plaintext@, aad@);
                &&& key@.len() == KEY_LEN
                &&& plaintext@.len() <= GCM_PLAIN_MAX && aad@.len() <= GCM_PLAIN_MAX
                &&& m.ciphertext@ == s.0 + s.1
                &&& s.0.len() == plaintext@.len()
                &&& s.1.len() == TAG_LEN
                &&& gcm_opened(key@, m.nonce@, s.0, aad@, s.1) == Some(plaintext@)
            },
            Err(e) => if key@.len() != KEY_LEN {
                e == AeadError::BadKeyLen(key@.len() as usize)
            } else {
                &&& plaintext@.len() > GCM_PLAIN_MAX || aad@.len() > GCM_PLAIN_MAX
                &&& e == AeadError::Encrypt
            },
        },
{
    if key.len() != KEY_LEN {
        return Err(AeadError::BadKeyLen(key.len()));
    }
    let nonce = gcm_random_nonce();
    match gcm_seal(key, &nonce, plaintext, aad) {
        Some(ciphertext) => Ok(SealedMessage { nonce, ciphertext }),
        None => Err(AeadError::Encrypt),
    }
}

/// Seals with a given nonce and hands the tag out apart, so that the ciphertext
/// is as long as the plaintext. A nonce must not be used twice with one key.
pub fn seal_detached(
    key: &[u8],
    nonce: &[u8; NONCE_LEN],
    plaintext: &[u8],
    aad: &[u8],
) -> (r: Result<(Vec<u8>, [u8; TAG_LEN]), AeadError>)
    requires
        sealable(plaintext@, aad@),
    ensures
        match r {
            Ok(p) => {
                &&& key@.len() == KEY_LEN
                &&& plaintext@.len() <= GCM_PLAIN_MAX && aad@.len() <= GCM_PLAIN_MAX
                &&& (p.0@, p.1@) == gcm_sealed(key@, nonce@, plaintext@, aad@)
                &&& p.0@.len() == plaintext@.len()
                &&& gcm_opened(key@, nonce@, p.0@, aad@, p.1@) == Some(plaintext@)
            },
            Err(e) => if key@.len() != KEY_LEN {
                e == AeadError::BadKeyLen(key@.len() as usize)
            } else {
                &&& plaintext@.len() > GCM_PLAIN_MAX || aad@.len() > GCM_PLAIN_MAX
                &&& e == AeadError::Encrypt
            },
        },
{
    if key.len() != KEY_LEN {
        return Err(AeadError::BadKeyLen(key.len()));
    }
    match gcm_seal_detached(key, nonce, plaintext, aad) {
        Some(p) => Ok(p),
        None => Err(AeadError::Encrypt),
    }
}

/// Undoes [`seal_detached`]. What opens is the only plaintext that seals to this
/// ciphertext and tag, and with another tag than its own a ciphertext is refused.
/// That a changed nonce, ciphertext or `aad` is refused is not stated: tags are
/// shorter than what they stand for, so there are such inputs whose tag is the same.
pub fn open_detached(
    key: &[u8],
    nonce: &[u8; NONCE_LEN],
    ciphertext: &[u8],
    tag: &[u8; TAG_LEN],
    aad: &[u8],
) -> (r: Result<Vec<u8>, AeadError>)
    requires
        openable(ciphertext@, aad@),
    ensures
        match r {
            Ok(p) => {
                &&& key@.len() == KEY_LEN
                &&& ciphertext@.len() <= GCM_STREAM && aad@.len() <= GCM_PLAIN_MAX
                &&& gcm_opened(key@, nonce@, ciphertext@, aad@, tag@) == Some(p@)
                &&& gcm_sealed(key@, nonce@, p@, aad@) == (ciphertext@, tag@)
                &&& p@.len() == ciphertext@.len()
                &&& !wrongly_tagged(key@, nonce@, ciphertext@, aad@, tag@)
            },
            Err(e) => if key@.len() != KEY_LEN {
                e == AeadError::BadKeyLen(key@.len() as usize)
            } else {
                &&& ciphertext@.len() > GCM_STREAM || aad@.len() > GCM_PLAIN_MAX || gcm_opened(
                    key@,
                    nonce@,
                    ciphertext@,
                    aad@,
                    tag@,
                ) is None
                &&& e == AeadError::Decrypt
            },
        },
{
    if key.len() != KEY_LEN {
        return Err(AeadError::BadKeyLen(key.len()));
    }
    match gcm_open_detached(key, nonce, ciphertext, aad, tag) {
        Some(p) => Ok(p),
        None => Err(AeadError::Decrypt),
    }
}

/// Opens a sealed message, as [`open_detached`] does: what opens was sealed with
/// this key, nonce and `aad`.
pub fn open(key: &[u8], msg: &SealedMessage, aad: &[u8]) -> (r: Result<Vec<u8>, AeadError>)
    requires
        msg.ciphertext@.len() >= TAG_LEN ==> openable(
            msg.ciphertext@.subrange(0, msg.ciphertext@.len() - TAG_LEN),
            aad@,
        ),
    ensures
        key@.len() != KEY_LEN ==> r == Err::<Vec<u8>, AeadError>(
            AeadError::BadKeyLen(key@.len() as usize),
        ),
        key@.len() == KEY_LEN && msg.ciphertext@.len() < TAG_LEN ==> r == Err::<
            Vec<u8>,
            AeadError,
        >(AeadError::Decrypt),
        key@.len() == KEY_LEN && msg.ciphertext@.len() >= TAG_LEN ==> {
            let n = msg.ciphertext@.len() - TAG_LEN;
            let ct = msg.ciphertext@.subrange(0, n);
            let tag = msg.ciphertext@.subrange(n, msg.ciphertext@.len() as int);
            match r {
                Ok(p) => {
                    &&& n <= GCM_STREAM && aad@.len() <= GCM_PLAIN_MAX
                    &&& gcm_opened(key@, msg.nonce@, ct, aad@, tag) == Some(p@)
                    &&& gcm_sealed(key@, msg.nonce@, p@, aad@) == (ct, tag)
                    &&& p@.len() == n
                    &&& !wrongly_tagged(key@, msg.nonce@, ct, aad@, tag)
                },
                Err(e) => {
                    &&& n > GCM_STREAM || aad@.len() > GCM_PLAIN_MAX || gcm_opened(
                        key@,
                        msg.nonce@,
                        ct,
                        aad@,
                        tag,
                    ) is None
                    &&& e == AeadError::Decrypt
                },
            }
        },
{
    if key.len() != KEY_LEN {
        return Err(AeadError::BadKeyLen(key.len()));
    }
    match gcm_open(key, &msg.nonce, &msg.ciphertext, aad) {
        Some(p) => Ok(p),
        None => Err(AeadError::Decrypt),
    }
}

impl AeadError {
    /// The error in words.
    pub open spec fn text_spec(self) -> Seq<char> {
        match self {
            AeadError::BadKeyLen(n) => "bad key length: expected 32, got "@ + decimal(n as nat),
            AeadError::BadNonceLen(n) => "bad nonce length: expected 12, got "@ + decimal(n as nat),
            AeadError::Encrypt => "aead encrypt failed"@,
            AeadError::Decrypt => "aead decrypt failed (auth tag mismatch or tampered ciphertext)"@,
        }
    }

    pub fn text(&self) -> (r: String)
        ensures
            r@ == self.text_spec(),
    {
        match self {
            AeadError::BadKeyLen(n) => join2(
                "bad key length: expected 32, got ",
                decimal_text(*n as u64).as_str(),
            ),
            AeadError::BadNonceLen(n) => join2(
                "bad nonce length: expected 12, got ",
                decimal_text(*n as u64).as_str(),
            ),
            AeadError::Encrypt => "aead encrypt failed".to_owned(),
            AeadError::Decrypt => {
                "aead decrypt failed (auth tag mismatch or tampered ciphertext)".to_owned()
            },
        }
    }
}

} // verus!
