//! Post-quantum key encapsulation: ML-KEM in its three parameter sets.
use crate::text::{decimal, decimal_text, join2, join3, text_eq};
use ml_kem::kem::{Decapsulate, Encapsulate};
use ml_kem::{EncodedSizeUser, KemCore, MlKem1024, MlKem512, MlKem768};
use rand::rngs::OsRng;
use vstd::prelude::*;
use vstd::string::*;

pub mod suite;

verus! {

#[derive(Debug)]
pub enum PqcError {
    UnsupportedSuite(String),
    BadLength { expected: usize, got: usize },
    Backend(String),
}

impl PqcError {
    pub open spec fn text_spec(self) -> Seq<char> {
        match self {
            PqcError::UnsupportedSuite(s) => "unsupported suite: "@ + s@,
            PqcError::BadLength { expected, got } => bad_length_text(expected as nat, got as nat),
            PqcError::Backend(s) => "backend error: "@ + s@,
        }
    }

    /// The error in words.
    pub fn text(&self) -> (r: String)
        ensures
            r@ == self.text_spec(),
    {
        match self {
            PqcError::UnsupportedSuite(s) => join2("unsupported suite: ", s.as_str()),
            PqcError::BadLength { expected, got } => {
                let mut t = join3(
                    "bad key/ciphertext length: expected ",
                    decimal_text(*expected as u64).as_str(),
                    ", got ",
                );
                t.append(decimal_text(*got as u64).as_str());
                t
            },
            PqcError::Backend(s) => join2("backend error: ", s.as_str()),
        }
    }
}

pub open spec fn bad_length_text(expected: nat, got: nat) -> Seq<char> {
    "bad key/ciphertext length: expected "@ + decimal(expected) + ", got "@ + decimal(got)
}

/// The parameter sets, named by their level.
#[derive(Debug, Clone, Copy, PartialEq, Eq, Structural)]
pub enum Level {
    L512,
    L768,
    L1024,
}

impl Level {
    pub open spec fn suite(self) -> Seq<char> {
        match self {
            Level::L512 => suite::ML_KEM_512@,
            Level::L768 => suite::ML_KEM_768@,
            Level::L1024 => suite::ML_KEM_1024@,
        }
    }

    pub open spec fn public_key_len(self) -> usize {
        match self {
            Level::L512 => 800,
            Level::L768 => 1184,
            Level::L1024 => 1568,
        }
    }

    pub open spec fn secret_key_len(self) -> usize {
        match self {
            Level::L512 => 1632,
            Level::L768 => 2400,
            Level::L1024 => 3168,
        }
    }

    pub open spec fn ciphertext_len(self) -> usize {
        match self {
            Level::L512 => 768,
            Level::L768 => 1088,
            Level::L1024 => 1568,
        }
    }
}

/// Length of a shared secret in every suite.
pub const SHARED_SECRET_LEN: usize = 32;

/// A key pair as bytes.
#[derive(Clone, Debug)]
pub struct KemKeypair {
    pub public: Vec<u8>,
    pub secret: Vec<u8>,
    pub suite: String,
}

/// What encapsulation gives: the ciphertext to send and the secret to keep.
#[derive(Clone, Debug)]
pub struct KemEncap {
    pub ciphertext: Vec<u8>,
    pub shared_secret: Vec<u8>,
}

/// Public and secret key that ML-KEM derives from the two seeds `d` and `z`.
pub uninterp spec fn ml_kem_keys(level: Level, d: Seq<u8>, z: Seq<u8>) -> (Seq<u8>, Seq<u8>);

/// Ciphertext and shared secret of ML-KEM for the public key and the random
/// value `m`.
pub uninterp spec fn ml_kem_encapsulated(level: Level, public: Seq<u8>, m: Seq<u8>) -> (
    Seq<u8>,
    Seq<u8>,
);

/// The shared secret that ML-KEM recovers with the secret key. A ciphertext
/// that was tampered with gives another secret, not an error.
pub uninterp spec fn ml_kem_decapsulated(
    level: Level,
    secret: Seq<u8>,
    ciphertext: Seq<u8>,
) -> Seq<u8>;

/// `KemCore::generate` of `ml_kem::MlKem512` with the operating system's random
/// source, both keys encoded: (public, secret).
#[verifier::external_body]
fn generate_512() -> (r: (Vec<u8>, Vec<u8>))
    ensures
        r.0@.len() == 800,
        r.1@.len() == 1632,
        exists|d: Seq<u8>, z: Seq<u8>|
            (r.0@, r.1@) == #[trigger] ml_kem_keys(Level::L512, d, z),
{
    let (dk, ek) = MlKem512::generate(&mut OsRng);
    (ek.as_bytes().to_vec(), dk.as_bytes().to_vec())
}

/// `KemCore::generate` of `ml_kem::MlKem768`, as for the smallest set.
#[verifier::external_body]
fn generate_768() -> (r: (Vec<u8>, Vec<u8>))
    ensures
        r.0@.len() == 1184,
        r.1@.len() == 2400,
        exists|d: Seq<u8>, z: Seq<u8>|
            (r.0@, r.1@) == #[trigger] ml_kem_keys(Level::L768, d, z),
{
    let (dk, ek) = MlKem768::generate(&mut OsRng);
    (ek.as_bytes().to_vec(), dk.as_bytes().to_vec())
}

/// `KemCore::generate` of `ml_kem::MlKem1024`, as for the smallest set.
#[verifier::external_body]
fn generate_1024() -> (r: (Vec<u8>, Vec<u8>))
    ensures
        r.0@.len() == 1568,
        r.1@.len() == 3168,
        exists|d: Seq<u8>, z: Seq<u8>|
            (r.0@, r.1@) == #[trigger] ml_kem_keys(Level::L1024, d, z),
{
    let (dk, ek) = MlKem1024::generate(&mut OsRng);
    (ek.as_bytes().to_vec(), dk.as_bytes().to_vec())
}

/// `Encapsulate::encapsulate` of an `ml_kem::MlKem512` key with a random value:
/// (ciphertext, shared secret). It never fails.
#[verifier::external_body]
fn encapsulate_512(public: &[u8]) -> (r: (Vec<u8>, Vec<u8>))
    requires
        public@.len() == 800,
    ensures
        r.0@.len() == 768,
        r.1@.len() == SHARED_SECRET_LEN,
        exists|m: Seq<u8>|
            (r.0@, r.1@) == #[trigger] ml_kem_encapsulated(Level::L512, public@, m),
{
    let encoded = public.try_into().expect("length was tested");
    let ek = <MlKem512 as KemCore>::EncapsulationKey::from_bytes(&encoded);
    let (ct, ss) = ek.encapsulate(&mut OsRng).expect("encapsulation is infallible");
    (ct.to_vec(), ss.to_vec())
}

/// `Encapsulate::encapsulate` of an `ml_kem::MlKem768` key.
#[verifier::external_body]
fn encapsulate_768(public: &[u8]) -> (r: (Vec<u8>, Vec<u8>))
    requires
        public@.len() == 1184,
    ensures
        r.0@.len() == 1088,
        r.1@.len() == SHARED_SECRET_LEN,
        exists|m: Seq<u8>|
            (r.0@, r.1@) == #[trigger] ml_kem_encapsulated(Level::L768, public@, m),
{
    let encoded = public.try_into().expect("length was tested");
    let ek = <MlKem768 as KemCore>::EncapsulationKey::from_bytes(&encoded);
    let (ct, ss) = ek.encapsulate(&mut OsRng).expect("encapsulation is infallible");
    (ct.to_vec(), ss.to_vec())
}

/// `Encapsulate::encapsulate` of an `ml_kem::MlKem1024` key.
#[verifier::external_body]
fn encapsulate_1024(public: &[u8]) -> (r: (Vec<u8>, Vec<u8>))
    requires
        public@.len() == 1568,
    ensures
        r.0@.len() == 1568,
        r.1@.len() == SHARED_SECRET_LEN,
        exists|m: Seq<u8>|
            (r.0@, r.1@) == #[trigger] ml_kem_encapsulated(Level::L1024, public@, m),
{
    let encoded = public.try_into().expect("length was tested");
    let ek = <MlKem1024 as KemCore>::EncapsulationKey::from_bytes(&encoded);
    let (ct, ss) = ek.encapsulate(&mut OsRng).expect("encapsulation is infallible");
    (ct.to_vec(), ss.to_vec())
}

/// `Decapsulate::decapsulate` of an `ml_kem::MlKem512` key. It never fails.
#[verifier::external_body]
fn decapsulate_512(secret: &[u8], ciphertext: &[u8]) -> (r: Vec<u8>)
    requires
        secret@.len() == 1632,
        ciphertext@.len() == 768,
    ensures
        r@ == ml_kem_decapsulated(Level::L512, secret@, ciphertext@),
        r@.len() == SHARED_SECRET_LEN,
{
    let encoded = secret.try_into().expect("length was tested");
    let dk = <MlKem512 as KemCore>::DecapsulationKey::from_bytes(&encoded);
    let ct = ciphertext.try_into().expect("length was tested");
    dk.decapsulate(&ct).expect("decapsulation is infallible").to_vec()
}

/// `Decapsulate::decapsulate` of an `ml_kem::MlKem768` key.
#[verifier::external_body]
fn decapsulate_768(secret: &[u8], ciphertext: &[u8]) -> (r: Vec<u8>)
    requires
        secret@.len() == 2400,
        ciphertext@.len() == 1088,
    ensures
        r@ == ml_kem_decapsulated(Level::L768, secret@, ciphertext@),
        r@.len() == SHARED_SECRET_LEN,
{
    let encoded = secret.try_into().expect("length was tested");
    let dk = <MlKem768 as KemCore>::DecapsulationKey::from_bytes(&encoded);
    let ct = ciphertext.try_into().expect("length was tested");
    dk.decapsulate(&ct).expect("decapsulation is infallible").to_vec()
}

/// `Decapsulate::decapsulate` of an `ml_kem::MlKem1024` key.
#[verifier::external_body]
fn decapsulate_1024(secret: &[u8], ciphertext: &[u8]) -> (r: Vec<u8>)
    requires
        secret@.len() == 3168,
        ciphertext@.len() == 1568,
    ensures
        r@ == ml_kem_decapsulated(Level::L1024, secret@, ciphertext@),
        r@.len() == SHARED_SECRET_LEN,
{
    let encoded = secret.try_into().expect("length was tested");
    let dk = <MlKem1024 as KemCore>::DecapsulationKey::from_bytes(&encoded);
    let ct = ciphertext.try_into().expect("length was tested");
    dk.decapsulate(&ct).expect("decapsulation is infallible").to_vec()
}

/// A key encapsulation mechanism.
pub trait Kem {
    spec fn level(&self) -> Level;

    fn suite(&self) -> (r: &'static str)
        ensures
            r@ == self.level().suite(),
    ;

    fn public_key_len(&self) -> (r: usize)
        ensures
            r == self.level().public_key_len(),
    ;

    fn secret_key_len(&self) -> (r: usize)
        ensures
            r == self.level().secret_key_len(),
    ;

    fn ciphertext_len(&self) -> (r: usize)
        ensures
            r == self.level().ciphertext_len(),
    ;

    /// A fresh key pair. It always succeeds.
    fn keygen(&self) -> (r: Result<KemKeypair, PqcError>)
        ensures
            match r {
                Ok(kp) => {
                    &&& kp.public@.len() == self.level().public_key_len()
                    &&& kp.secret@.len() == self.level().secret_key_len()
                    &&& kp.suite@ == self.level().suite()
                    &&& exists|d: Seq<u8>, z: Seq<u8>|
                        (kp.public@, kp.secret@) == #[trigger] ml_kem_keys(self.level(), d, z)
                },
                Err(_) => false,
            },
    ;

    /// A fresh shared secret for the holder of `peer_public`.
    fn encap(&self, peer_public: &[u8]) -> (r: Result<KemEncap, PqcError>)
        ensures
            match r {
                Ok(e) => {
                    &&& peer_public@.len() == self.level().public_key_len()
                    &&& e.ciphertext@.len() == self.level().ciphertext_len()
                    &&& e.shared_secret@.len() == SHARED_SECRET_LEN
                    &&& exists|m: Seq<u8>|
                        (e.ciphertext@, e.shared_secret@) == #[trigger] ml_kem_encapsulated(
                            self.level(),
                            peer_public@,
                            m,
                        )
                },
                Err(e) => {
                    &&& peer_public@.len() != self.level().public_key_len()
                    &&& e == (PqcError::BadLength {
                        expected: self.level().public_key_len(),
                        got: peer_public@.len() as usize,
                    })
                },
            },
    ;

    /// The shared secret that `ciphertext` carries. Its length is tested after
    /// that of the key.
    fn decap(&self, secret: &[u8], ciphertext: &[u8]) -> (r: Result<Vec<u8>, PqcError>)
        ensures
            match r {
                Ok(ss) => {
                    &&& secret@.len() == self.level().secret_key_len()
                    &&& ciphertext@.len() == self.level().ciphertext_len()
                    &&& ss@ == ml_kem_decapsulated(self.level(), secret@, ciphertext@)
                    &&& ss@.len() == SHARED_SECRET_LEN
                },
                Err(e) => if secret@.len() != self.level().secret_key_len() {
                    e == (PqcError::BadLength {
                        expected: self.level().secret_key_len(),
                        got: secret@.len() as usize,
                    })
                } else {
                    &&& ciphertext@.len() != self.level().ciphertext_len()
                    &&& e == (PqcError::BadLength {
                        expected: self.level().ciphertext_len(),
                        got: ciphertext@.len() as usize,
                    })
                },
            },
    ;
}

pub struct MlKem512Kem;

pub struct MlKem768Kem;

pub struct MlKem1024Kem;

impl Kem for MlKem512Kem {
    open spec fn level(&self) -> Level {
        Level::L512
    }

    fn suite(&self) -> (r: &'static str) {
        suite::ML_KEM_512
    }

    fn public_key_len(&self) -> (r: usize) {
        800
    }

    fn secret_key_len(&self) -> (r: usize) {
        1632
    }

    fn ciphertext_len(&self) -> (r: usize) {
        768
    }

    fn keygen(&self) -> (r: Result<KemKeypair, PqcError>) {
        let (public, secret) = generate_512();
        Ok(KemKeypair { public, secret, suite: suite::ML_KEM_512.to_owned() })
    }

    fn encap(&self, peer_public: &[u8]) -> (r: Result<KemEncap, PqcError>) {
        let expected: usize = self.public_key_len();
        if peer_public.len() != expected {
            return Err(PqcError::BadLength { expected, got: peer_public.len() });
        }
        let (ciphertext, shared_secret) = encapsulate_512(peer_public);
        Ok(KemEncap { ciphertext, shared_secret })
    }

    fn decap(&self, secret: &[u8], ciphertext: &[u8]) -> (r: Result<Vec<u8>, PqcError>) {
        let expected: usize = self.secret_key_len();
        if secret.len() != expected {
            return Err(PqcError::BadLength { expected, got: secret.len() });
        }
        let expected: usize = self.ciphertext_len();
        if ciphertext.len() != expected {
            return Err(PqcError::BadLength { expected, got: ciphertext.len() });
        }
        Ok(decapsulate_512(secret, ciphertext))
    }
}

impl Kem for MlKem768Kem {
    open spec fn level(&self) -> Level {
        Level::L768
    }

    fn suite(&self) -> (r: &'static str) {
        suite::ML_KEM_768
    }

    fn public_key_len(&self) -> (r: usize) {
        1184
    }

    fn secret_key_len(&self) -> (r: usize) {
        2400
    }

    fn ciphertext_len(&self) -> (r: usize) {
        1088
    }

    fn keygen(&self) -> (r: Result<KemKeypair, PqcError>) {
        let (public, secret) = generate_768();
        Ok(KemKeypair { public, secret, suite: suite::ML_KEM_768.to_owned() })
    }

    fn encap(&self, peer_public: &[u8]) -> (r: Result<KemEncap, PqcError>) {
        let expected: usize = self.public_key_len();
        if peer_public.len() != expected {
            return Err(PqcError::BadLength { expected, got: peer_public.len() });
        }
        let (ciphertext, shared_secret) = encapsulate_768(peer_public);
        Ok(KemEncap { ciphertext, shared_secret })
    }

    fn decap(&self, secret: &[u8], ciphertext: &[u8]) -> (r: Result<Vec<u8>, PqcError>) {
        let expected: usize = self.secret_key_len();
        if secret.len() != expected {
            return Err(PqcError::BadLength { expected, got: secret.len() });
        }
        let expected: usize = self.ciphertext_len();
        if ciphertext.len() != expected {
            return Err(PqcError::BadLength { expected, got: ciphertext.len() });
        }
        Ok(decapsulate_768(secret, ciphertext))
    }
}

impl Kem for MlKem1024Kem {
    open spec fn level(&self) -> Level {
        Level::L1024
    }

    fn suite(&self) -> (r: &'static str) {
        suite::ML_KEM_1024
    }

    fn public_key_len(&self) -> (r: usize) {
        1568
    }

    fn secret_key_len(&self) -> (r: usize) {
        3168
    }

    fn ciphertext_len(&self) -> (r: usize) {
        1568
    }

    fn keygen(&self) -> (r: Result<KemKeypair, PqcError>) {
        let (public, secret) = generate_1024();
        Ok(KemKeypair { public, secret, suite: suite::ML_KEM_1024.to_owned() })
    }

    fn encap(&self, peer_public: &[u8]) -> (r: Result<KemEncap, PqcError>) {
        let expected: usize = self.public_key_len();
        if peer_public.len() != expected {
            return Err(PqcError::BadLength { expected, got: peer_public.len() });
        }
        let (ciphertext, shared_secret) = encapsulate_1024(peer_public);
        Ok(KemEncap { ciphertext, shared_secret })
    }

    fn decap(&self, secret: &[u8], ciphertext: &[u8]) -> (r: Result<Vec<u8>, PqcError>) {
        let expected: usize = self.secret_key_len();
        if secret.len() != expected {
            return Err(PqcError::BadLength { expected, got: secret.len() });
        }
        let expected: usize = self.ciphertext_len();
        if ciphertext.len() != expected {
            return Err(PqcError::BadLength { expected, got: ciphertext.len() });
        }
        Ok(decapsulate_1024(secret, ciphertext))
    }
}

/// One of the supported mechanisms, picked at run time.
pub enum AnyKem {
    MlKem512(MlKem512Kem),
    MlKem768(MlKem768Kem),
    MlKem1024(MlKem1024Kem),
}

impl Kem for AnyKem {
    open spec fn level(&self) -> Level {
        match self {
            AnyKem::MlKem512(k) => k.level(),
            AnyKem::MlKem768(k) => k.level(),
            AnyKem::MlKem1024(k) => k.level(),
        }
    }

    fn suite(&self) -> (r: &'static str) {
        match self {
            AnyKem::MlKem512(k) => k.suite(),
            AnyKem::MlKem768(k) => k.suite(),
            AnyKem::MlKem1024(k) => k.suite(),
        }
    }

    fn public_key_len(&self) -> (r: usize) {
        match self {
            AnyKem::MlKem512(k) => k.public_key_len(),
            AnyKem::MlKem768(k) => k.public_key_len(),
            AnyKem::MlKem1024(k) => k.public_key_len(),
        }
    }

    fn secret_key_len(&self) -> (r: usize) {
        match self {
            AnyKem::MlKem512(k) => k.secret_key_len(),
            AnyKem::MlKem768(k) => k.secret_key_len(),
            AnyKem::MlKem1024(k) => k.secret_key_len(),
        }
    }

    fn ciphertext_len(&self) -> (r: usize) {
        match self {
            AnyKem::MlKem512(k) => k.ciphertext_len(),
            AnyKem::MlKem768(k) => k.ciphertext_len(),
            AnyKem::MlKem1024(k) => k.ciphertext_len(),
        }
    }

    fn keygen(&self) -> (r: Result<KemKeypair, PqcError>) {
        match self {
            AnyKem::MlKem512(k) => k.keygen(),
            AnyKem::MlKem768(k) => k.keygen(),
            AnyKem::MlKem1024(k) => k.keygen(),
        }
    }

    fn encap(&self, peer_public: &[u8]) -> (r: Result<KemEncap, PqcError>) {
        match self {
            AnyKem::MlKem512(k) => k.encap(peer_public),
            AnyKem::MlKem768(k) => k.encap(peer_public),
            AnyKem::MlKem1024(k) => k.encap(peer_public),
        }
    }

    fn decap(&self, secret: &[u8], ciphertext: &[u8]) -> (r: Result<Vec<u8>, PqcError>) {
        match self {
            AnyKem::MlKem512(k) => k.decap(secret, ciphertext),
            AnyKem::MlKem768(k) => k.decap(secret, ciphertext),
            AnyKem::MlKem1024(k) => k.decap(secret, ciphertext),
        }
    }
}

/// The level that a suite name stands for.
pub open spec fn level_named(suite: Seq<char>) -> Option<Level> {
    if suite == Level::L512.suite() {
        Some(Level::L512)
    } else if suite == Level::L768.suite() {
        Some(Level::L768)
    } else if suite == Level::L1024.suite() {
        Some(Level::L1024)
    } else {
        None
    }
}

/// The mechanism that `suite` names.
pub fn kem_for(suite: &str) -> (r: Result<AnyKem, PqcError>)
    ensures
        match r {
            Ok(k) => level_named(suite@) == Some(k.level()),
            Err(e) => {
                &&& level_named(suite@) is None
                &&& e matches PqcError::UnsupportedSuite(s) && s@ == suite@
            },
        },
{
    if text_eq(suite, suite::ML_KEM_512) {
        Ok(AnyKem::MlKem512(MlKem512Kem))
    } else if text_eq(suite, suite::ML_KEM_768) {
        Ok(AnyKem::MlKem768(MlKem768Kem))
    } else if text_eq(suite, suite::ML_KEM_1024) {
        Ok(AnyKem::MlKem1024(MlKem1024Kem))
    } else {
        Err(PqcError::UnsupportedSuite(suite.to_owned()))
    }
}

/// A suite is named in full, and every level is named by its own.
pub proof fn suites_name_their_levels(name: Seq<char>)
    ensures
        level_named(name) == Some(Level::L512) <==> name == "ml-kem-512"@,
        level_named(name) == Some(Level::L768) <==> name == "ml-kem-768"@,
        level_named(name) == Some(Level::L1024) <==> name == "ml-kem-1024"@,
{
    reveal_strlit("ml-kem-512");
    reveal_strlit("ml-kem-768");
    reveal_strlit("ml-kem-1024");
    assert("ml-kem-512"@[7] != "ml-kem-768"@[7]);
    assert("ml-kem-1024"@.len() != "ml-kem-768"@.len());
    assert("ml-kem-1024"@.len() != "ml-kem-512"@.len());
}

} // verus!
