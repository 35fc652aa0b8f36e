//! End-to-end protection of transport key material between two nodes.
//!
//! Two nodes agree on a secret by key encapsulation and number it with an
//! epoch. A payload is sealed with a key derived from that secret and the id of
//! the transport key; sender, receiver and the whole header are authenticated
//! with it. The receiver opens a payload before it acts on its header, and
//! opens each payload once.
use crate::bytes::{array16, array32};
use crate::clock::{Clock, SECOND};
use crate::codec::{
    base64_bytes, base64_decode, base64_encode, base64_text, hex_bytes, hex_decode, hex_encode,
    hex_reads_back, hex_text,
};
use crate::config::TransportE2eCfg;
use crate::crypto::aead::{open_detached, seal_detached, wrongly_tagged, AeadError, TAG_LEN};
use crate::crypto::frame_mac::ReplayError;
use crate::crypto::pqc::{
    bad_length_text, kem_for, level_named, ml_kem_decapsulated, ml_kem_encapsulated, ml_kem_keys,
    Kem, SHARED_SECRET_LEN,
};
use crate::crypto::primitives::{gcm_opened, gcm_sealed, GCM_CIPHER_MAX, GCM_PLAIN_MAX, GCM_STREAM};
use crate::orr::HDR_INCARNATION;
use crate::table::{Headers, Table};
use crate::text::{
    decimal, decimal_text, is_less, join2, join3, parse_number, parsed_number, text_eq, text_less,
};
use aad::{aad_bytes, aad_leaves_the_tag_out, aad_of, derive_pair, derived};
use peer::{kept, PeerState, PeerView};
use vstd::prelude::*;
use vstd::string::*;

pub mod aad;
pub mod laws;
pub mod peer;

verus! {

/// Epoch of the secret that a payload is sealed with (decimal).
pub const HDR_E2E_EPOCH: &'static str = "e2e_epoch";

/// Counter of the sender towards this peer (decimal, from 1 on).
pub const HDR_E2E_CTR: &'static str = "e2e_ctr";

/// Tag of the payload (hexadecimal).
pub const HDR_E2E_TAG: &'static str = "e2e_tag";

/// Path of the key agreement on the peer plane.
pub const KEM_PATH: &'static str = "/kmapi/v1/e2e/kem";

/// Time between two agreements with one peer.
pub const AGREEMENT_MIN_INTERVAL_NS: u64 = 2_000_000_000;

/// Time after which an agreement that was asked for is given up.
pub const PENDING_ESK_TTL_NS: u64 = 30_000_000_000;

#[derive(Debug)]
pub enum E2eError {
    /// Nothing was agreed with this peer.
    NoEpoch { peer: String },
    /// The payload was sealed with an epoch that is not held.
    UnknownEpoch { peer: String, epoch: u32 },
    Header(String),
    /// Material or header changed on the way, or the secrets differ.
    BadTag,
    Replay(ReplayError),
    Kem(String),
    Peer(String),
}

#[verifier::ext_equal]
pub enum E2eErrorView {
    NoEpoch { peer: Seq<char> },
    UnknownEpoch { peer: Seq<char>, epoch: u32 },
    Header(Seq<char>),
    BadTag,
    Replay(ReplayError),
    Kem(Seq<char>),
    Peer(Seq<char>),
}

impl View for E2eError {
    type V = E2eErrorView;

    open spec fn view(&self) -> E2eErrorView {
        match *self {
            E2eError::NoEpoch { peer } => E2eErrorView::NoEpoch { peer: peer@ },
            E2eError::UnknownEpoch { peer, epoch } => E2eErrorView::UnknownEpoch {
                peer: peer@,
                epoch,
            },
            E2eError::Header(s) => E2eErrorView::Header(s@),
            E2eError::BadTag => E2eErrorView::BadTag,
            E2eError::Replay(e) => E2eErrorView::Replay(e),
            E2eError::Kem(s) => E2eErrorView::Kem(s@),
            E2eError::Peer(s) => E2eErrorView::Peer(s@),
        }
    }
}

impl E2eError {
    pub open spec fn text_spec(self) -> Seq<char> {
        match self {
            E2eError::NoEpoch { peer } => "sin \u{e9}poca acordada con "@ + peer@,
            E2eError::UnknownEpoch { peer, epoch } => "\u{e9}poca "@ + decimal(epoch as nat)
                + " desconocida para "@ + peer@,
            E2eError::Header(s) => "cabecera e2e incompleta o malformada: "@ + s@,
            E2eError::BadTag =>
                "tag e2e inv\u{e1}lido (material o cabecera alterados, o secreto divergente)"@,
            E2eError::Replay(e) => "replay: "@ + e.text_spec(),
            E2eError::Kem(s) => "kem: "@ + s@,
            E2eError::Peer(s) => "peer: "@ + s@,
        }
    }

    /// The error in words.
    pub fn text(&self) -> (r: String)
        ensures
            r@ == self.text_spec(),
    {
        match self {
            E2eError::NoEpoch { peer } => join2("sin \u{e9}poca acordada con ", peer.as_str()),
            E2eError::UnknownEpoch { peer, epoch } => {
                let mut t = join3(
                    "\u{e9}poca ",
                    decimal_text(*epoch as u64).as_str(),
                    " desconocida para ",
                );
                t.append(peer.as_str());
                t
            },
            E2eError::Header(s) => join2("cabecera e2e incompleta o malformada: ", s.as_str()),
            E2eError::BadTag => {
                "tag e2e inv\u{e1}lido (material o cabecera alterados, o secreto divergente)".to_owned()
            },
            E2eError::Replay(e) => join2("replay: ", e.text().as_str()),
            E2eError::Kem(s) => join2("kem: ", s.as_str()),
            E2eError::Peer(s) => join2("peer: ", s.as_str()),
        }
    }
}

/// What one side of an agreement sends.
#[derive(Debug, Clone)]
pub struct KemRequest {
    pub suite: String,
    /// Ephemeral public key, base64.
    pub epk: String,
}

/// What the other side answers.
#[derive(Debug, Clone)]
pub struct KemResponse {
    pub suite: String,
    /// Epoch that the answering side gave the secret. Never 0.
    pub epoch: u32,
    /// Ciphertext, base64.
    pub ct: String,
}

#[verifier::ext_equal]
pub struct E2eView {
    pub my_id: Seq<char>,
    pub suite: Seq<char>,
    pub rekey_secs: u64,
    pub keep: usize,
    pub window: u64,
    pub peers: Map<Seq<char>, PeerView>,
}

/// The fields of a sealed payload's header.
pub struct SealHeader {
    pub epoch: u32,
    pub counter: u64,
    pub tag: Seq<u8>,
    pub session: u64,
}

/// Reads the header of a sealed payload, or says what is wrong with it. The
/// session is the sender's incarnation, in hexadecimal.
pub open spec fn seal_header(h: Map<Seq<char>, Seq<char>>) -> Result<SealHeader, Seq<char>> {
    if !h.dom().contains(HDR_E2E_EPOCH@) {
        Err("falta "@ + HDR_E2E_EPOCH@)
    } else if parsed_number(h[HDR_E2E_EPOCH@], 10, u32::MAX as nat) is None {
        Err(HDR_E2E_EPOCH@ + " no es u32"@)
    } else if !h.dom().contains(HDR_E2E_CTR@) {
        Err("falta "@ + HDR_E2E_CTR@)
    } else if parsed_number(h[HDR_E2E_CTR@], 10, u64::MAX as nat) is None {
        Err(HDR_E2E_CTR@ + " no es u64"@)
    } else if !h.dom().contains(HDR_E2E_TAG@) {
        Err("falta "@ + HDR_E2E_TAG@)
    } else if hex_bytes(h[HDR_E2E_TAG@]) is None {
        Err(HDR_E2E_TAG@ + " no es hex"@)
    } else if hex_bytes(h[HDR_E2E_TAG@])->0.len() != TAG_LEN {
        Err(HDR_E2E_TAG@ + " no mide 16"@)
    } else if !h.dom().contains(HDR_INCARNATION@) {
        Err("falta "@ + HDR_INCARNATION@)
    } else if parsed_number(h[HDR_INCARNATION@], 16, u64::MAX as nat) is None {
        Err("incarnation no es hex de 64 bits"@)
    } else {
        Ok(
            SealHeader {
                epoch: parsed_number(h[HDR_E2E_EPOCH@], 10, u32::MAX as nat)->0 as u32,
                counter: parsed_number(h[HDR_E2E_CTR@], 10, u64::MAX as nat)->0 as u64,
                tag: hex_bytes(h[HDR_E2E_TAG@])->0,
                session: parsed_number(h[HDR_INCARNATION@], 16, u64::MAX as nat)->0 as u64,
            },
        )
    }
}

pub open spec fn suite_mismatch(theirs: Seq<char>, mine: Seq<char>) -> Seq<char> {
    "suite e2e '"@ + theirs + "' del peer != '"@ + mine
        + "' local: [transport_e2e].suite debe ser id\u{e9}ntica en todo el despliegue"@
}

impl E2eView {
    /// What is known of `peer`: nothing yet, if it was never heard of.
    pub open spec fn state_of(self, peer: Seq<char>) -> PeerView {
        if self.peers.dom().contains(peer) {
            self.peers[peer]
        } else {
            PeerView::fresh(self.window)
        }
    }

    pub open spec fn with_peer(self, peer: Seq<char>, state: PeerView) -> E2eView {
        E2eView { peers: self.peers.insert(peer, state), ..self }
    }

    /// Every peer is in order and keeps no more epochs than it may.
    pub open spec fn wf(self) -> bool {
        &&& self.window <= usize::MAX
        &&& self.keep + 2 <= u32::MAX
        &&& forall|p: Seq<char>| #[trigger]
            self.peers.dom().contains(p) ==> self.peers[p].wf() && self.peers[p].epochs.len()
                <= kept(self.keep)
    }

    /// Sealing `plaintext` for `peer`: what is returned, and what becomes of the
    /// layer and of the header.
    pub open spec fn sealed(
        self,
        peer: Seq<char>,
        key_id: Seq<char>,
        header: Map<Seq<char>, Seq<char>>,
        plaintext: Seq<u8>,
    ) -> (Result<Seq<u8>, E2eErrorView>, E2eView, Map<Seq<char>, Seq<char>>) {
        let st = self.state_of(peer);
        match st.send_epoch {
            None => (Err(E2eErrorView::NoEpoch { peer }), self.with_peer(peer, st), header),
            Some(epoch) => match st.secret(epoch) {
                None => (Err(E2eErrorView::NoEpoch { peer }), self.with_peer(peer, st), header),
                Some(secret) => {
                    let counter = (st.counter + 1) as u64;
                    let after = self.with_peer(peer, PeerView { counter, ..st });
                    let h = header.insert(HDR_E2E_EPOCH@, decimal(epoch as nat)).insert(
                        HDR_E2E_CTR@,
                        decimal(counter as nat),
                    ).remove(HDR_E2E_TAG@);
                    let aad = aad_of(self.my_id, peer, h);
                    let (key, nonce) = derived(secret, key_id);
                    if plaintext.len() > GCM_PLAIN_MAX || aad.len() > GCM_PLAIN_MAX {
                        (Err(E2eErrorView::Kem(AeadError::Encrypt.text_spec())), after, h)
                    } else {
                        let (ct, tag) = gcm_sealed(key, nonce, plaintext, aad);
                        (Ok(ct), after, h.insert(HDR_E2E_TAG@, hex_text(tag)))
                    }
                },
            },
        }
    }

    /// Whether `ct`, with the tag that `header` carries, opens as `plaintext`
    /// under the secret that payloads to `peer` are sealed with.
    pub open spec fn genuine(
        self,
        peer: Seq<char>,
        key_id: Seq<char>,
        header: Map<Seq<char>, Seq<char>>,
        ct: Seq<u8>,
        plaintext: Seq<u8>,
    ) -> bool {
        let st = self.state_of(peer);
        let aad = aad_of(self.my_id, peer, header);
        let tag = hex_bytes(header[HDR_E2E_TAG@]);
        &&& st.send_epoch is Some
        &&& st.secret(st.send_epoch->0) is Some
        &&& tag is Some
        &&& tag->0.len() == TAG_LEN
        &&& ct.len() <= GCM_STREAM
        &&& aad.len() <= GCM_PLAIN_MAX
        &&& ({
            let (key, nonce) = derived(st.secret(st.send_epoch->0)->0, key_id);
            gcm_opened(key, nonce, ct, aad, tag->0) == Some(plaintext)
        })
    }

    /// The plaintext of a payload from `source`, before its freshness is looked at.
    pub open spec fn unsealed(
        self,
        source: Seq<char>,
        header: Map<Seq<char>, Seq<char>>,
        key_id: Seq<char>,
        payload: Seq<u8>,
    ) -> Result<Seq<u8>, E2eErrorView> {
        match seal_header(header) {
            Err(m) => Err(E2eErrorView::Header(m)),
            Ok(f) => {
                let secret = if self.peers.dom().contains(source) {
                    self.peers[source].secret(f.epoch)
                } else {
                    None
                };
                match secret {
                    None => Err(E2eErrorView::UnknownEpoch { peer: source, epoch: f.epoch }),
                    Some(s) => {
                        let aad = aad_of(source, self.my_id, header);
                        let (key, nonce) = derived(s, key_id);
                        if payload.len() > GCM_STREAM || aad.len() > GCM_PLAIN_MAX {
                            Err(E2eErrorView::BadTag)
                        } else {
                            match gcm_opened(key, nonce, payload, aad, f.tag) {
                                Some(p) => Ok(p),
                                None => Err(E2eErrorView::BadTag),
                            }
                        }
                    },
                }
            },
        }
    }

    /// Whether sealing `plaintext` with the key that a payload from `source` is
    /// opened with gives that payload and its tag.
    pub open spec fn sealed_as(
        self,
        source: Seq<char>,
        header: Map<Seq<char>, Seq<char>>,
        key_id: Seq<char>,
        payload: Seq<u8>,
        plaintext: Seq<u8>,
    ) -> bool {
        let f = seal_header(header)->Ok_0;
        let (key, nonce) = derived(self.peers[source].secret(f.epoch)->0, key_id);
        gcm_sealed(key, nonce, plaintext, aad_of(source, self.my_id, header)) == (payload, f.tag)
    }

    /// Whether a payload from `source` has a tag, but not its own.
    pub open spec fn retagged(
        self,
        source: Seq<char>,
        header: Map<Seq<char>, Seq<char>>,
        key_id: Seq<char>,
        payload: Seq<u8>,
    ) -> bool {
        let f = seal_header(header)->Ok_0;
        let (key, nonce) = derived(self.peers[source].secret(f.epoch)->0, key_id);
        &&& seal_header(header) is Ok
        &&& self.peers.dom().contains(source)
        &&& self.peers[source].secret(f.epoch) is Some
        &&& wrongly_tagged(key, nonce, payload, aad_of(source, self.my_id, header), f.tag)
    }

    /// Opening a payload that came from `source` at `now_ns`. The layer changes
    /// only where the payload is genuine.
    pub open spec fn opened(
        self,
        source: Seq<char>,
        header: Map<Seq<char>, Seq<char>>,
        key_id: Seq<char>,
        payload: Seq<u8>,
        now_ns: u64,
    ) -> (Result<Seq<u8>, E2eErrorView>, E2eView) {
        match self.unsealed(source, header, key_id, payload) {
            Err(e) => (Err(e), self),
            Ok(plain) => {
                let f = seal_header(header)->Ok_0;
                let st = self.peers[source];
                let (r, replay) = st.replay.step(f.session, f.counter, now_ns);
                let after = self.with_peer(source, PeerView { replay, ..st });
                match r {
                    Ok(_) => (Ok(plain), after),
                    Err(e) => (Err(E2eErrorView::Replay(e)), after),
                }
            },
        }
    }

    /// Ending an agreement with `peer` that this side asked for.
    pub open spec fn completed(
        self,
        peer: Seq<char>,
        suite: Seq<char>,
        epoch: u32,
        ct: Seq<char>,
        now_ns: u64,
    ) -> (Result<u32, E2eErrorView>, E2eView) {
        let st = self.state_of(peer);
        let dropped = PeerView { pending_esk: None, ..st };
        if epoch == 0 {
            (Err(E2eErrorView::Peer("\u{e9}poca 0 no es v\u{e1}lida"@)), self)
        } else if suite != self.suite {
            (Err(E2eErrorView::Peer(suite_mismatch(suite, self.suite))), self)
        } else if level_named(suite) is None {
            (Err(E2eErrorView::Kem("unsupported suite: "@ + suite)), self)
        } else if base64_bytes(ct) is Err {
            (Err(E2eErrorView::Peer("ct base64: "@ + base64_bytes(ct)->Err_0)), self)
        } else if st.pending_esk is None {
            (
                Err(E2eErrorView::Peer("respuesta sin acuerdo en vuelo"@)),
                self.with_peer(peer, dropped),
            )
        } else {
            let (esk, since) = st.pending_esk->0;
            let level = level_named(suite)->0;
            let bytes = base64_bytes(ct)->Ok_0;
            if now_ns - since > PENDING_ESK_TTL_NS {
                (
                    Err(E2eErrorView::Peer("acuerdo en vuelo caducado"@)),
                    self.with_peer(peer, dropped),
                )
            } else if esk.len() != level.secret_key_len() {
                (
                    Err(
                        E2eErrorView::Kem(
                            bad_length_text(level.secret_key_len() as nat, esk.len()),
                        ),
                    ),
                    self.with_peer(peer, dropped),
                )
            } else if bytes.len() != level.ciphertext_len() {
                (
                    Err(
                        E2eErrorView::Kem(
                            bad_length_text(level.ciphertext_len() as nat, bytes.len()),
                        ),
                    ),
                    self.with_peer(peer, dropped),
                )
            } else {
                (
                    Ok(epoch),
                    self.with_peer(
                        peer,
                        dropped.stored(
                            epoch,
                            ml_kem_decapsulated(level, esk, bytes),
                            self.keep,
                            now_ns,
                        ),
                    ),
                )
            }
        }
    }

    /// The layer once an agreement with `peer` was asked for.
    pub open spec fn asking(self, peer: Seq<char>, secret: Seq<u8>, now_ns: u64) -> E2eView {
        self.with_peer(
            peer,
            PeerView { pending_esk: Some((secret, now_ns)), ..self.state_of(peer) },
        )
    }

    /// The layer once an agreement with `peer` was asked for with the key pair of the
    /// seeds `d` and `z`.
    pub open spec fn asked(self, peer: Seq<char>, d: Seq<u8>, z: Seq<u8>, now_ns: u64) -> E2eView {
        self.asking(peer, ml_kem_keys(level_named(self.suite)->0, d, z).1, now_ns)
    }

    /// Whether a text is the public half of the key pair of the seeds `d` and `z`.
    pub open spec fn offers(self, epk: Seq<char>, d: Seq<u8>, z: Seq<u8>) -> bool {
        let level = level_named(self.suite)->0;
        let (public, secret) = ml_kem_keys(level, d, z);
        &&& epk == base64_text(public)
        &&& base64_bytes(epk) == Ok::<Seq<u8>, Seq<char>>(public)
        &&& public.len() == level.public_key_len()
        &&& secret.len() == level.secret_key_len()
    }

    /// The layer once a secret was taken over for `epoch`.
    pub open spec fn agreed(
        self,
        peer: Seq<char>,
        epoch: u32,
        pair: (Seq<u8>, Seq<u8>),
        now_ns: u64,
    ) -> E2eView {
        self.with_peer(peer, self.state_of(peer).stored(epoch, pair.1, self.keep, now_ns))
    }

    /// Whether `after` is the layer once the secret of `pair` was taken over for
    /// `epoch`, and `ct` is its ciphertext as text.
    pub open spec fn answered(
        self,
        peer: Seq<char>,
        epoch: u32,
        ct: Seq<char>,
        pair: (Seq<u8>, Seq<u8>),
        now_ns: u64,
        after: E2eView,
    ) -> bool {
        &&& ct == base64_text(pair.0)
        &&& base64_bytes(ct) == Ok::<Seq<u8>, Seq<char>>(pair.0)
        &&& pair.1.len() == SHARED_SECRET_LEN
        &&& after == self.agreed(peer, epoch, pair, now_ns)
    }

    /// Why an agreement that `peer` asks for is refused, if it is.
    pub open spec fn refusal(self, suite: Seq<char>, epk: Seq<char>) -> Option<E2eErrorView> {
        if suite != self.suite {
            Some(E2eErrorView::Peer(suite_mismatch(suite, self.suite)))
        } else if level_named(suite) is None {
            Some(E2eErrorView::Kem("unsupported suite: "@ + suite))
        } else if base64_bytes(epk) is Err {
            Some(E2eErrorView::Peer("epk base64: "@ + base64_bytes(epk)->Err_0))
        } else if base64_bytes(epk)->Ok_0.len() != level_named(suite)->0.public_key_len() {
            Some(
                E2eErrorView::Peer(
                    "epk de "@ + decimal(base64_bytes(epk)->Ok_0.len()) + " bytes, "@ + suite
                        + " espera "@ + decimal(level_named(suite)->0.public_key_len() as nat),
                ),
            )
        } else {
            None
        }
    }

    /// Whether an agreement with `peer` may be started now.
    pub open spec fn may_agree(self, peer: Seq<char>, now_ns: u64) -> bool {
        let st = self.state_of(peer);
        !st.inflight && (st.last_attempt matches Some(t) ==> now_ns - t
            >= AGREEMENT_MIN_INTERVAL_NS)
    }

    /// Once an agreement with `peer` was asked for: if it may be started, it is
    /// under way.
    pub open spec fn agreement_tried(self, peer: Seq<char>, now_ns: u64) -> E2eView {
        if self.may_agree(peer, now_ns) {
            self.with_peer(
                peer,
                PeerView { inflight: true, last_attempt: Some(now_ns), ..self.state_of(peer) },
            )
        } else {
            self
        }
    }

    /// Whether it is this side's turn to renew the secret shared with `peer`: of
    /// a pair, the node whose id comes first renews.
    pub open spec fn due(self, peer: Seq<char>, now_ns: u64) -> bool {
        &&& self.peers.dom().contains(peer)
        &&& text_less(self.my_id, peer)
        &&& self.peers[peer].established_at matches Some(t) && now_ns - t >= SECOND * (
        if self.rekey_secs < 1 {
            1
        } else {
            self.rekey_secs as int
        })
    }
}

pub open spec fn bytes_result(r: Result<Vec<u8>, E2eError>) -> Result<Seq<u8>, E2eErrorView> {
    match r {
        Ok(v) => Ok(v@),
        Err(e) => Err(e@),
    }
}

pub open spec fn epoch_result(r: Result<u32, E2eError>) -> Result<u32, E2eErrorView> {
    match r {
        Ok(v) => Ok(v),
        Err(e) => Err(e@),
    }
}

/// The layer with all its peers.
pub struct E2e {
    my_id: String,
    cfg: TransportE2eCfg,
    peers: Table<PeerState>,
    clock: Clock,
}

impl View for E2e {
    type V = E2eView;

    closed spec fn view(&self) -> E2eView {
        E2eView {
            my_id: self.my_id@,
            suite: self.cfg.suite@,
            rekey_secs: self.cfg.rekey_secs,
            keep: self.cfg.epoch_history_keep,
            window: self.cfg.replay_window,
            peers: Map::new(
                |p: Seq<char>| self.peers@.dom().contains(p),
                |p: Seq<char>| self.peers@[p]@,
            ),
        }
    }
}

impl E2e {
    pub closed spec fn inv(self) -> bool {
        &&& self.peers.inv()
        &&& self@.wf()
        &&& forall|p: Seq<char>| #[trigger] self.peers@.dom().contains(p) ==> self.peers@[p].inv()
    }

    /// What the laws of the layer ask for holds of every layer.
    pub proof fn lemma_wf(self)
        requires
            self.inv(),
        ensures
            self@.wf(),
    {
    }

    pub fn new(my_id: &str, cfg: TransportE2eCfg) -> (r: Self)
        requires
            cfg.replay_window <= usize::MAX,
            cfg.epoch_history_keep + 2 <= u32::MAX,
        ensures
            r.inv(),
            r@ == (E2eView {
                my_id: my_id@,
                suite: cfg.suite@,
                rekey_secs: cfg.rekey_secs,
                keep: cfg.epoch_history_keep,
                window: cfg.replay_window,
                peers: Map::empty(),
            }),
    {
        let r = E2e { my_id: my_id.to_owned(), cfg, peers: Table::new(), clock: Clock::start() };
        assert(r@.peers =~= Map::<Seq<char>, PeerView>::empty());
        r
    }

    pub fn my_id(&self) -> (r: &str)
        ensures
            r@ == self@.my_id,
    {
        self.my_id.as_str()
    }

    /// What is kept of `peer`, made up new where there is nothing.
    fn take_state(&mut self, peer: &str) -> (r: PeerState)
        requires
            old(self).inv(),
        ensures
            final(self).inv(),
            r.inv(),
            r@ == old(self)@.state_of(peer@),
            r@.epochs.len() <= kept(old(self)@.keep),
            final(self)@ == (E2eView { peers: old(self)@.peers.remove(peer@), ..old(self)@ }),
            final(self).clock == old(self).clock,
    {
        let ghost before = self@;
        match self.peers.remove(peer) {
            Some(s) => {
                assert(self@.peers =~= before.peers.remove(peer@));
                s
            },
            None => {
                assert(self@.peers =~= before.peers.remove(peer@));
                PeerState::new(self.cfg.replay_window)
            },
        }
    }

    fn put_state(&mut self, peer: &str, state: PeerState)
        requires
            old(self).inv(),
            state.inv(),
            state@.epochs.len() <= kept(old(self)@.keep),
        ensures
            final(self).inv(),
            final(self)@ == old(self)@.with_peer(peer@, state@),
            final(self).clock == old(self).clock,
    {
        let ghost before = self@;
        proof {
            state.lemma_wf();
        }
        self.peers.insert(peer, state);
        assert(self@.peers =~= before.peers.insert(peer@, state@));
    }

    /// Whether another payload can be numbered for `peer`.
    pub fn can_seal(&self, peer: &str) -> (r: bool)
        requires
            self.inv(),
        ensures
            r == (self@.state_of(peer@).counter < u64::MAX),
    {
        match self.peers.get(peer) {
            Some(s) => s.counter() < u64::MAX,
            None => true,
        }
    }

    /// Seals `plaintext` for `peer` and writes epoch, counter and tag into
    /// `header`, whose other fields are authenticated and must be complete. The
    /// ciphertext is as long as the plaintext.
    pub fn seal(&mut self, peer: &str, key_id: &str, header: &mut Headers, plaintext: &[u8]) -> (r:
        Result<Vec<u8>, E2eError>)
        requires
            old(self).inv(),
            old(header).inv(),
            old(self)@.state_of(peer@).counter < u64::MAX,
            plaintext@.len() <= GCM_STREAM || plaintext@.len() > GCM_PLAIN_MAX,
        ensures
            final(self).inv(),
            final(header).inv(),
            (bytes_result(r), final(self)@, final(header)@) == old(self)@.sealed(
                peer@,
                key_id@,
                old(header)@,
                plaintext@,
            ),
            r matches Ok(ct) ==> ct@.len() == plaintext@.len() && old(self)@.genuine(
                peer@,
                key_id@,
                final(header)@,
                ct@,
                plaintext@,
            ),
    {
        let ghost before = self@;
        let mut st = self.take_state(peer);
        let epoch: u32 = match st.send_epoch() {
            Some(e) => e,
            None => {
                self.put_state(peer, st);
                assert(self@.peers =~= before.with_peer(peer@, st@).peers);
                return Err(E2eError::NoEpoch { peer: peer.to_owned() });
            },
        };
        let secret = match st.secret(epoch) {
            Some(s) => s,
            None => {
                self.put_state(peer, st);
                assert(self@.peers =~= before.with_peer(peer@, st@).peers);
                return Err(E2eError::NoEpoch { peer: peer.to_owned() });
            },
        };
        let ghost st0 = st@;
        let counter: u64 = st.next_counter();
        self.put_state(peer, st);
        assert(self@.peers =~= before.with_peer(peer@, (PeerView { counter, ..st0 })).peers);
        header.insert(HDR_E2E_EPOCH, decimal_text(epoch as u64).as_str());
        header.insert(HDR_E2E_CTR, decimal_text(counter).as_str());
        header.remove(HDR_E2E_TAG);
        let aad = aad_bytes(self.my_id.as_str(), peer, header);
        let (key, nonce) = derive_pair(&secret, key_id);
        match seal_detached(&key, &nonce, plaintext, &aad) {
            Ok((ct, tag)) => {
                let ghost bare = header@;
                header.insert(HDR_E2E_TAG, hex_encode(&tag).as_str());
                proof {
                    header.lemma_listable();
                    aad_leaves_the_tag_out(before.my_id, peer@, header@);
                    assert(header@.remove(HDR_E2E_TAG@) =~= bare);
                    hex_reads_back(tag@);
                }
                Ok(ct)
            },
            Err(e) => Err(E2eError::Kem(e.text())),
        }
    }

    /// Opens a payload that says it comes from `source`, at `now_ns`. The tag is
    /// verified before freshness is looked at, and nothing changes before that.
    pub fn open_at(
        &mut self,
        source: &str,
        header: &Headers,
        key_id: &str,
        payload: &[u8],
        now_ns: u64,
    ) -> (r: Result<Vec<u8>, E2eError>)
        requires
            old(self).inv(),
            header.inv(),
            payload@.len() <= GCM_STREAM || payload@.len() > GCM_CIPHER_MAX,
        ensures
            final(self).inv(),
            (bytes_result(r), final(self)@) == old(self)@.opened(
                source@,
                header@,
                key_id@,
                payload@,
                now_ns,
            ),
            r matches Ok(p) ==> old(self)@.sealed_as(source@, header@, key_id@, payload@, p@),
            old(self)@.retagged(source@, header@, key_id@, payload@) ==> bytes_result(r) == Err::<
                Seq<u8>,
                E2eErrorView,
            >(E2eErrorView::BadTag) && final(self)@ == old(self)@,
    {
        let ghost before = self@;
        let epoch: u32 = match header.get(HDR_E2E_EPOCH) {
            Some(t) => match parse_number(t, 10, u32::MAX as u64) {
                Some(v) => v as u32,
                None => {
                    return Err(E2eError::Header(join2(HDR_E2E_EPOCH, " no es u32")));
                },
            },
            None => {
                return Err(E2eError::Header(join2("falta ", HDR_E2E_EPOCH)));
            },
        };
        let counter: u64 = match header.get(HDR_E2E_CTR) {
            Some(t) => match parse_number(t, 10, u64::MAX) {
                Some(v) => v,
                None => {
                    return Err(E2eError::Header(join2(HDR_E2E_CTR, " no es u64")));
                },
            },
            None => {
                return Err(E2eError::Header(join2("falta ", HDR_E2E_CTR)));
            },
        };
        let tag_bytes = match header.get(HDR_E2E_TAG) {
            Some(t) => match hex_decode(t) {
                Some(v) => v,
                None => {
                    return Err(E2eError::Header(join2(HDR_E2E_TAG, " no es hex")));
                },
            },
            None => {
                return Err(E2eError::Header(join2("falta ", HDR_E2E_TAG)));
            },
        };
        if tag_bytes.len() != TAG_LEN {
            return Err(E2eError::Header(join2(HDR_E2E_TAG, " no mide 16")));
        }
        let tag = array16(&tag_bytes);
        let session: u64 = match header.get(HDR_INCARNATION) {
            Some(t) => match parse_number(t, 16, u64::MAX) {
                Some(v) => v,
                None => {
                    return Err(E2eError::Header("incarnation no es hex de 64 bits".to_owned()));
                },
            },
            None => {
                return Err(E2eError::Header(join2("falta ", HDR_INCARNATION)));
            },
        };
        assert(seal_header(header@) is Ok);
        let secret = match self.peers.get(source) {
            Some(st) => match st.secret(epoch) {
                Some(s) => s,
                None => {
                    return Err(E2eError::UnknownEpoch { peer: source.to_owned(), epoch });
                },
            },
            None => {
                return Err(E2eError::UnknownEpoch { peer: source.to_owned(), epoch });
            },
        };
        let aad = aad_bytes(source, self.my_id.as_str(), header);
        let (key, nonce) = derive_pair(&secret, key_id);
        let plain = match open_detached(&key, &nonce, payload, &tag, &aad) {
            Ok(p) => p,
            Err(_) => {
                return Err(E2eError::BadTag);
            },
        };
        let mut st = self.take_state(source);
        let verdict = st.check_fresh(session, counter, now_ns);
        self.put_state(source, st);
        assert(self@.peers =~= before.peers.insert(source@, st@));
        match verdict {
            Ok(()) => Ok(plain),
            Err(e) => Err(E2eError::Replay(e)),
        }
    }

    /// Opens a payload that says it comes from `source`, now.
    pub fn open(&mut self, source: &str, header: &Headers, key_id: &str, payload: &[u8]) -> (r:
        Result<Vec<u8>, E2eError>)
        requires
            old(self).inv(),
            header.inv(),
            payload@.len() <= GCM_STREAM || payload@.len() > GCM_CIPHER_MAX,
        ensures
            final(self).inv(),
            exists|now_ns: u64|
                (bytes_result(r), final(self)@) == #[trigger] old(self)@.opened(
                    source@,
                    header@,
                    key_id@,
                    payload@,
                    now_ns,
                ),
            r matches Ok(p) ==> old(self)@.sealed_as(source@, header@, key_id@, payload@, p@),
            old(self)@.retagged(source@, header@, key_id@, payload@) ==> bytes_result(r) == Err::<
                Seq<u8>,
                E2eErrorView,
            >(E2eErrorView::BadTag) && final(self)@ == old(self)@,
    {
        let now_ns: u64 = self.clock.now_ns();
        self.open_at(source, header, key_id, payload, now_ns)
    }

    /// Starts an agreement with `peer` at `now_ns`: makes a key pair, keeps its
    /// secret half and returns what is to be sent.
    pub fn begin_request_at(&mut self, peer: &str, now_ns: u64) -> (r: Result<KemRequest, E2eError>)
        requires
            old(self).inv(),
        ensures
            final(self).inv(),
            match r {
                Ok(req) => {
                    &&& level_named(old(self)@.suite) is Some
                    &&& req.suite@ == old(self)@.suite
                    &&& exists|d: Seq<u8>, z: Seq<u8>|
                        final(self)@ == #[trigger] old(self)@.asked(peer@, d, z, now_ns) && old(
                            self,
                        )@.offers(req.epk@, d, z)
                },
                Err(e) => {
                    &&& level_named(old(self)@.suite) is None
                    &&& e@ == E2eErrorView::Kem("unsupported suite: "@ + old(self)@.suite)
                    &&& final(self)@ == old(self)@
                },
            },
    {
        let ghost before = self@;
        let kem = match kem_for(self.cfg.suite.as_str()) {
            Ok(k) => k,
            Err(e) => {
                return Err(E2eError::Kem(e.text()));
            },
        };
        let kp = match kem.keygen() {
            Ok(kp) => kp,
            Err(e) => {
                return Err(E2eError::Kem(e.text()));
            },
        };
        let ghost level = level_named(before.suite)->0;
        let ghost secret = kp.secret@;
        let ghost (d, z) = choose|d: Seq<u8>, z: Seq<u8>|
            (kp.public@, kp.secret@) == #[trigger] ml_kem_keys(level, d, z);
        let mut st = self.take_state(peer);
        st.set_pending(kp.secret, now_ns);
        self.put_state(peer, st);
        assert(self@.peers =~= before.asking(peer@, secret, now_ns).peers);
        let epk = base64_encode(&kp.public);
        assert(self@ == before.asked(peer@, d, z, now_ns));
        assert(before.offers(epk@, d, z));
        Ok(KemRequest { suite: kp.suite, epk })
    }

    /// Starts an agreement with `peer` now.
    pub fn begin_request(&mut self, peer: &str) -> (r: Result<KemRequest, E2eError>)
        requires
            old(self).inv(),
        ensures
            final(self).inv(),
            match r {
                Ok(req) => {
                    &&& level_named(old(self)@.suite) is Some
                    &&& req.suite@ == old(self)@.suite
                    &&& exists|d: Seq<u8>, z: Seq<u8>, now_ns: u64|
                        final(self)@ == #[trigger] old(self)@.asked(peer@, d, z, now_ns) && old(
                            self,
                        )@.offers(req.epk@, d, z)
                },
                Err(e) => {
                    &&& level_named(old(self)@.suite) is None
                    &&& e@ == E2eErrorView::Kem("unsupported suite: "@ + old(self)@.suite)
                    &&& final(self)@ == old(self)@
                },
            },
    {
        let now_ns: u64 = self.clock.now_ns();
        self.begin_request_at(peer, now_ns)
    }

    /// Ends an agreement that was asked for, at `now_ns`: recovers the secret
    /// with the key that was kept, which is given up, and takes the epoch over.
    pub fn complete_request_at(&mut self, peer: &str, resp: &KemResponse, now_ns: u64) -> (r: Result<
        u32,
        E2eError,
    >)
        requires
            old(self).inv(),
        ensures
            final(self).inv(),
            (epoch_result(r), final(self)@) == old(self)@.completed(
                peer@,
                resp.suite@,
                resp.epoch,
                resp.ct@,
                now_ns,
            ),
    {
        let ghost before = self@;
        if resp.epoch == 0 {
            return Err(E2eError::Peer("\u{e9}poca 0 no es v\u{e1}lida".to_owned()));
        }
        if !text_eq(resp.suite.as_str(), self.cfg.suite.as_str()) {
            return Err(
                E2eError::Peer(mismatch_text(resp.suite.as_str(), self.cfg.suite.as_str())),
            );
        }
        let kem = match kem_for(resp.suite.as_str()) {
            Ok(k) => k,
            Err(e) => {
                return Err(E2eError::Kem(e.text()));
            },
        };
        let ct = match base64_decode(resp.ct.as_str()) {
            Ok(b) => b,
            Err(e) => {
                return Err(E2eError::Peer(join2("ct base64: ", e.as_str())));
            },
        };
        let mut st = self.take_state(peer);
        let ghost st0 = st@;
        let pending = st.take_pending();
        let ghost dropped = st@;
        let (esk, since) = match pending {
            Some(p) => p,
            None => {
                self.put_state(peer, st);
                assert(self@.peers =~= before.with_peer(peer@, dropped).peers);
                return Err(E2eError::Peer("respuesta sin acuerdo en vuelo".to_owned()));
            },
        };
        if now_ns.saturating_sub(since) > PENDING_ESK_TTL_NS {
            self.put_state(peer, st);
            assert(self@.peers =~= before.with_peer(peer@, dropped).peers);
            return Err(E2eError::Peer("acuerdo en vuelo caducado".to_owned()));
        }
        let ss = match kem.decap(&esk, &ct) {
            Ok(ss) => ss,
            Err(e) => {
                assert(esk.len() == esk@.len() && ct.len() == ct@.len());
                self.put_state(peer, st);
                assert(self@.peers =~= before.with_peer(peer@, dropped).peers);
                return Err(E2eError::Kem(e.text()));
            },
        };
        let secret = array32(&ss);
        st.store(resp.epoch, &secret, self.cfg.epoch_history_keep, now_ns);
        let ghost done = st@;
        self.put_state(peer, st);
        assert(self@.peers =~= before.with_peer(peer@, done).peers);
        Ok(resp.epoch)
    }

    /// Ends an agreement that was asked for, now.
    pub fn complete_request(&mut self, peer: &str, resp: &KemResponse) -> (r: Result<u32, E2eError>)
        requires
            old(self).inv(),
        ensures
            final(self).inv(),
            exists|now_ns: u64|
                (epoch_result(r), final(self)@) == #[trigger] old(self)@.completed(
                    peer@,
                    resp.suite@,
                    resp.epoch,
                    resp.ct@,
                    now_ns,
                ),
    {
        let now_ns: u64 = self.clock.now_ns();
        self.complete_request_at(peer, resp, now_ns)
    }

    /// Answers an agreement that `peer` asks for, at `now_ns`: encapsulates a
    /// secret for its key, numbers it with a fresh epoch and seals with it from
    /// now on. `peer` is who the certificate says, not the request.
    pub fn respond_at(&mut self, peer: &str, req: &KemRequest, now_ns: u64) -> (r: Result<
        KemResponse,
        E2eError,
    >)
        requires
            old(self).inv(),
        ensures
            final(self).inv(),
            match r {
                Ok(resp) => {
                    let level = level_named(req.suite@)->0;
                    &&& old(self)@.refusal(req.suite@, req.epk@) is None
                    &&& resp.suite@ == req.suite@
                    &&& resp.epoch != 0
                    &&& !old(self)@.state_of(peer@).knows(resp.epoch)
                    &&& exists|m: Seq<u8>|
                        final(self)@ == #[trigger] old(self)@.agreed(
                            peer@,
                            resp.epoch,
                            ml_kem_encapsulated(level, base64_bytes(req.epk@)->Ok_0, m),
                            now_ns,
                        ) && old(self)@.answered(
                            peer@,
                            resp.epoch,
                            resp.ct@,
                            ml_kem_encapsulated(level, base64_bytes(req.epk@)->Ok_0, m),
                            now_ns,
                            final(self)@,
                        )
                },
                Err(e) => {
                    &&& old(self)@.refusal(req.suite@, req.epk@) == Some(e@)
                    &&& final(self)@ == old(self)@
                },
            },
    {
        let ghost before = self@;
        if !text_eq(req.suite.as_str(), self.cfg.suite.as_str()) {
            return Err(
                E2eError::Peer(mismatch_text(req.suite.as_str(), self.cfg.suite.as_str())),
            );
        }
        let kem = match kem_for(req.suite.as_str()) {
            Ok(k) => k,
            Err(e) => {
                return Err(E2eError::Kem(e.text()));
            },
        };
        let epk = match base64_decode(req.epk.as_str()) {
            Ok(b) => b,
            Err(e) => {
                return Err(E2eError::Peer(join2("epk base64: ", e.as_str())));
            },
        };
        let want: usize = kem.public_key_len();
        if epk.len() != want {
            let mut t = join3("epk de ", decimal_text(epk.len() as u64).as_str(), " bytes, ");
            t.append(req.suite.as_str());
            t.append(" espera ");
            t.append(decimal_text(want as u64).as_str());
            return Err(E2eError::Peer(t));
        }
        let enc = match kem.encap(&epk) {
            Ok(e) => e,
            Err(e) => {
                assert(false);
                return Err(E2eError::Kem(e.text()));
            },
        };
        let ghost level = level_named(req.suite@)->0;
        let ghost m = choose|m: Seq<u8>|
            (enc.ciphertext@, enc.shared_secret@) == #[trigger] ml_kem_encapsulated(level, epk@, m);
        let ghost pair = (enc.ciphertext@, enc.shared_secret@);
        let mut st = self.take_state(peer);
        let ghost st0 = st@;
        let epoch: u32 = st.fresh_epoch();
        let secret = array32(&enc.shared_secret);
        st.store(epoch, &secret, self.cfg.epoch_history_keep, now_ns);
        let ghost done = st@;
        self.put_state(peer, st);
        assert(self@.peers =~= before.with_peer(peer@, done).peers);
        let ct = base64_encode(&enc.ciphertext);
        assert(self@ == before.agreed(
            peer@,
            epoch,
            ml_kem_encapsulated(level, base64_bytes(req.epk@)->Ok_0, m),
            now_ns,
        ));
        assert(before.answered(
            peer@,
            epoch,
            ct@,
            ml_kem_encapsulated(level, base64_bytes(req.epk@)->Ok_0, m),
            now_ns,
            self@,
        ));
        Ok(KemResponse { suite: req.suite.clone(), epoch, ct })
    }

    /// Answers an agreement that `peer` asks for, now.
    pub fn respond(&mut self, peer: &str, req: &KemRequest) -> (r: Result<KemResponse, E2eError>)
        requires
            old(self).inv(),
        ensures
            final(self).inv(),
            match r {
                Ok(resp) => {
                    let level = level_named(req.suite@)->0;
                    &&& old(self)@.refusal(req.suite@, req.epk@) is None
                    &&& resp.suite@ == req.suite@
                    &&& resp.epoch != 0
                    &&& !old(self)@.state_of(peer@).knows(resp.epoch)
                    &&& exists|m: Seq<u8>, now_ns: u64|
                        final(self)@ == #[trigger] old(self)@.agreed(
                            peer@,
                            resp.epoch,
                            ml_kem_encapsulated(level, base64_bytes(req.epk@)->Ok_0, m),
                            now_ns,
                        ) && old(self)@.answered(
                            peer@,
                            resp.epoch,
                            resp.ct@,
                            ml_kem_encapsulated(level, base64_bytes(req.epk@)->Ok_0, m),
                            now_ns,
                            final(self)@,
                        )
                },
                Err(e) => {
                    &&& old(self)@.refusal(req.suite@, req.epk@) == Some(e@)
                    &&& final(self)@ == old(self)@
                },
            },
    {
        let now_ns: u64 = self.clock.now_ns();
        self.respond_at(peer, req, now_ns)
    }

    /// Whether an agreement with `peer` is to be started at `now_ns`. If so it
    /// counts as under way until [`E2e::end_agreement`].
    pub fn try_start_agreement(&mut self, peer: &str, now_ns: u64) -> (r: bool)
        requires
            old(self).inv(),
        ensures
            final(self).inv(),
            r == old(self)@.may_agree(peer@, now_ns),
            final(self)@ == old(self)@.agreement_tried(peer@, now_ns),
    {
        let ghost before = self@;
        let mut st = self.take_state(peer);
        let r = st.try_start(now_ns, AGREEMENT_MIN_INTERVAL_NS);
        let ghost done = st@;
        self.put_state(peer, st);
        assert(self@.peers =~= before.with_peer(peer@, done).peers);
        assert(!r ==> self@.peers =~= before.peers);
        r
    }

    /// Ends an agreement that was under way; a failed one leaves nothing pending.
    pub fn end_agreement(&mut self, peer: &str, ok: bool)
        requires
            old(self).inv(),
        ensures
            final(self).inv(),
            final(self)@ == old(self)@.with_peer(
                peer@,
                PeerView {
                    inflight: false,
                    pending_esk: if ok {
                        old(self)@.state_of(peer@).pending_esk
                    } else {
                        None
                    },
                    ..old(self)@.state_of(peer@)
                },
            ),
    {
        let ghost before = self@;
        let mut st = self.take_state(peer);
        st.end(ok);
        let ghost done = st@;
        self.put_state(peer, st);
        assert(self@.peers =~= before.with_peer(peer@, done).peers);
    }

    /// How often due renewals are looked for, in seconds.
    pub fn rekey_period_secs(&self) -> (r: u64)
        ensures
            r == (if self@.rekey_secs / 4 < 5 {
                5
            } else if self@.rekey_secs / 4 > 300 {
                300
            } else {
                self@.rekey_secs / 4
            }),
    {
        let quarter: u64 = self.cfg.rekey_secs / 4;
        if quarter < 5 {
            5
        } else if quarter > 300 {
            300
        } else {
            quarter
        }
    }

    /// The peers whose secret this side is to renew.
    pub fn due_peers(&self, now_ns: u64) -> (r: Vec<String>)
        requires
            self.inv(),
        ensures
            forall|p: Seq<char>|
                r@.map_values(|s: String| s@).contains(p) <==> #[trigger] self@.due(p, now_ns),
    {
        let rekey_secs: u64 = if self.cfg.rekey_secs < 1 { 1 } else { self.cfg.rekey_secs };
        let n: usize = self.peers.len();
        let mut out: Vec<String> = Vec::new();
        let mut i: usize = 0;
        proof {
            self.peers.lemma_keys();
        }
        let ghost keys = self.peers.keys();
        while i < n
            invariant
                self.inv(),
                self.peers.inv(),
                keys == self.peers.keys(),
                n == keys.len(),
                i <= n,
                rekey_secs == (if self@.rekey_secs < 1 {
                    1
                } else {
                    self@.rekey_secs as int
                }),
                forall|j: int|
                    0 <= j < out@.len() ==> self@.due(#[trigger] out@[j]@, now_ns),
                forall|j: int|
                    0 <= j < i && self@.due(#[trigger] keys[j], now_ns) ==> exists|k: int|
                        0 <= k < out@.len() && #[trigger] out@[k]@ == keys[j],
            decreases n - i,
        {
            let (p, st) = self.peers.entry(i);
            let due: bool = is_less(self.my_id.as_str(), p) && match st.established_at() {
                Some(t) => now_ns.saturating_sub(t) / SECOND >= rekey_secs,
                None => false,
            };
            assert(due == self@.due(keys[i as int], now_ns));
            let ghost prior = out@;
            if due {
                out.push(p.to_owned());
                assert(out@[prior.len() as int]@ == keys[i as int]);
            }
            proof {
                assert forall|j: int|
                    0 <= j < i + 1 && self@.due(#[trigger] keys[j], now_ns) implies exists|k: int|
                    0 <= k < out@.len() && #[trigger] out@[k]@ == keys[j] by {
                    if j < i {
                        let k = choose|k: int|
                            0 <= k < prior.len() && #[trigger] prior[k]@ == keys[j];
                        assert(out@[k]@ == keys[j]);
                    }
                }
            }
            i = i + 1;
        }
        proof {
            let texts = out@.map_values(|s: String| s@);
            assert forall|p: Seq<char>| texts.contains(p) <==> #[trigger] self@.due(p, now_ns) by {
                if texts.contains(p) {
                    let k = choose|k: int| 0 <= k < texts.len() && texts[k] == p;
                    assert(out@[k]@ == p);
                }
                if self@.due(p, now_ns) {
                    assert(keys.to_set().contains(p));
                    let j = choose|j: int| 0 <= j < keys.len() && keys[j] == p;
                    let k = choose|k: int| 0 <= k < out@.len() && #[trigger] out@[k]@ == keys[j];
                    assert(texts[k] == p);
                }
            }
        }
        out
    }

    /// The epoch that is sealed with, and how many are kept.
    pub fn snapshot(&self, peer: &str) -> (r: (Option<u32>, usize))
        requires
            self.inv(),
        ensures
            r == (if self@.peers.dom().contains(peer@) {
                (self@.peers[peer@].send_epoch, self@.peers[peer@].epochs.len() as usize)
            } else {
                (None::<u32>, 0usize)
            }),
    {
        match self.peers.get(peer) {
            Some(st) => (st.send_epoch(), st.epoch_count()),
            None => (None, 0),
        }
    }

    /// Whether the secret of `epoch` is held for `peer`.
    pub fn holds(&self, peer: &str, epoch: u32) -> (r: bool)
        requires
            self.inv(),
        ensures
            r == (self@.peers.dom().contains(peer@) && self@.peers[peer@].secret(epoch) is Some),
    {
        match self.peers.get(peer) {
            Some(st) => st.secret(epoch).is_some(),
            None => false,
        }
    }
}

fn mismatch_text(theirs: &str, mine: &str) -> (r: String)
    ensures
        r@ == suite_mismatch(theirs@, mine@),
{
    let mut t = join3("suite e2e '", theirs, "' del peer != '");
    t.append(mine);
    t.append("' local: [transport_e2e].suite debe ser id\u{e9}ntica en todo el despliegue");
    t
}

} // verus!
