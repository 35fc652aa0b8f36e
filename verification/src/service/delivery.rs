//! Transport keys that other nodes deliver.
use crate::ack_pending::bucket_of;
use crate::buffers::{KeyView, TransportKey};
use crate::crypto::primitives::{GCM_CIPHER_MAX, GCM_STREAM};
use crate::e2e::{E2eError, E2eErrorView};
use crate::error::{DkmsError, ErrorView};
use crate::flow_stats::{bumped, FlowView, PeerFlow};
use crate::generator::GeneratorView;
use crate::ids::KeyId;
use crate::names::name_views;
use crate::orr::{
    HDR_ACK_ENDPOINT, HDR_INCARNATION, HDR_KEY_ID, HDR_KEY_SIZE_BITS, HDR_MSG_TYPE, HDR_SAE_ORIGIN,
    MSG_TYPE_DKMS_BUFFER,
};
use crate::qrng_adapter::bytes_of_bits;
use crate::service::{DkmsService, ServiceView};
use crate::table::Headers;
use crate::text::{decimal, decimal_text, join2, join3, parse_number, parsed_number, text_eq};
use vstd::prelude::*;
use vstd::string::*;

verus! {

/// Within this time no second restart of a peer is acted upon.
pub const INCARNATION_WIPE_COOLDOWN_NS: u64 = 30_000_000_000;

/// What was thrown away because a peer was restarted.
#[derive(Debug, Clone, Copy, PartialEq, Eq, Structural)]
pub struct Forgotten {
    pub enc: usize,
    pub dec: usize,
    pub ack_pending: usize,
}

/// What became of a delivery.
#[derive(Debug)]
pub enum Delivery {
    /// It is not transport key material.
    NotForUs,
    /// It was sealed with an epoch that is not held. An agreement is to be started,
    /// if the flag says so.
    UnknownEpoch { epoch: u32, start_agreement: bool },
    /// It came before, or too late.
    Replayed,
    /// It cannot be verified.
    Corrupt,
    /// The key is there. A batch of acknowledgements may have to be sent.
    Stored { batch: Option<Vec<String>> },
}

pub enum DeliveryView {
    NotForUs,
    UnknownEpoch { epoch: u32, start_agreement: bool },
    Replayed,
    Corrupt,
    Stored { batch: Option<Seq<Seq<char>>> },
}

impl View for Delivery {
    type V = DeliveryView;

    open spec fn view(&self) -> DeliveryView {
        match *self {
            Delivery::NotForUs => DeliveryView::NotForUs,
            Delivery::UnknownEpoch { epoch, start_agreement } => DeliveryView::UnknownEpoch {
                epoch,
                start_agreement,
            },
            Delivery::Replayed => DeliveryView::Replayed,
            Delivery::Corrupt => DeliveryView::Corrupt,
            Delivery::Stored { batch } => DeliveryView::Stored { batch: batch_view(batch) },
        }
    }
}

pub open spec fn delivery_result(r: Result<Delivery, DkmsError>) -> Result<DeliveryView, ErrorView> {
    match r {
        Ok(d) => Ok(d@),
        Err(e) => Err(e@),
    }
}

pub open spec fn header_text(h: Map<Seq<char>, Seq<char>>, name: Seq<char>) -> Option<Seq<char>> {
    if h.dom().contains(name) {
        Some(h[name])
    } else {
        None
    }
}

/// What is wrong with a delivery before it is opened.
pub open spec fn malformed(h: Map<Seq<char>, Seq<char>>, payload_len: nat) -> Option<Seq<char>> {
    if !h.dom().contains(HDR_KEY_ID@) {
        Some("orr buffer delivery missing "@ + HDR_KEY_ID@)
    } else if !h.dom().contains(HDR_SAE_ORIGIN@) {
        Some("orr buffer delivery missing "@ + HDR_SAE_ORIGIN@)
    } else {
        let bits = match header_text(h, HDR_KEY_SIZE_BITS@) {
            Some(t) => parsed_number(t, 10, u32::MAX as nat),
            None => None,
        };
        match bits {
            Some(b) => if payload_len != bytes_of_bits(b) {
                Some(
                    "orr buffer delivery "@ + h[HDR_KEY_ID@] + ": payload "@ + decimal(payload_len)
                        + " bytes, header "@ + decimal(b) + " bits"@,
                )
            } else {
                None
            },
            None => None,
        }
    }
}

impl ServiceView {
    /// Without anything that was shared with an earlier run of a peer: the keys
    /// that it has lost, those that it encrypted with, and those that it would have
    /// acknowledged.
    pub open spec fn forgetting(self, peer: Seq<char>) -> ServiceView {
        let keys = self.pool.of(peer);
        ServiceView {
            pool: self.pool.with(peer, keys.enc_cleared().with_dec(keys.dec.cleared())),
            gen: match self.gen {
                Some(g) => Some(GeneratorView { pending: g.pending.remove(peer), ..g }),
                None => None,
            },
            ..self
        }
    }

    /// Whether `f` counts what forgetting a peer throws away: the keys to encrypt
    /// with, as far as they can be counted, those to decrypt with, and those that
    /// wait for an acknowledgement.
    pub open spec fn loses(self, peer: Seq<char>, f: Forgotten) -> bool {
        let keys = self.pool.of(peer);
        &&& f.enc == (if keys.enc_len() > usize::MAX {
            usize::MAX as int
        } else {
            keys.enc_len() as int
        })
        &&& f.dec == keys.dec.keys.len()
        &&& f.ack_pending == (match self.gen {
            Some(g) => bucket_of(g.pending, peer).dom().len(),
            None => 0,
        })
    }

    /// Once the run of a peer is noted, if it says which it is in.
    pub open spec fn incarnation_noted(
        self,
        peer: Seq<char>,
        incarnation: Option<Seq<char>>,
        now_ns: u64,
    ) -> ServiceView {
        match incarnation {
            None => self,
            Some(inc) => {
                let (previous, incarnations) = self.incarnations.noted(
                    peer,
                    inc,
                    now_ns,
                    INCARNATION_WIPE_COOLDOWN_NS,
                );
                let noted = ServiceView { incarnations, ..self };
                if previous is Some {
                    noted.forgetting(peer)
                } else {
                    noted
                }
            },
        }
    }

    /// With a key that a peer encrypts with, which is counted as received.
    pub open spec fn key_received(self, peer: Seq<char>, key: KeyView) -> ServiceView {
        let keys = self.pool.of(peer);
        let f = self.flow.of(peer);
        if keys.dec.full() {
            ServiceView {
                pool: self.pool.with(peer, keys),
                flow: self.flow.with(
                    peer,
                    PeerFlow {
                        dec_dropped: bumped(f.dec_dropped, 1),
                        recv: bumped(f.recv, 1),
                        ..f
                    },
                ),
                ..self
            }
        } else {
            ServiceView {
                pool: self.pool.with(peer, keys.with_dec(keys.dec.pushed(key))),
                flow: self.flow.with(peer, PeerFlow { recv: bumped(f.recv, 1), ..f }),
                ..self
            }
        }
    }

    /// With an acknowledgement queued.
    pub open spec fn ack_queued(self, peer: Seq<char>, addr: Seq<char>, key_id: Seq<char>) -> (
        ServiceView,
        Option<Seq<Seq<char>>>,
    ) {
        let f = self.flow.of(peer);
        let (batch, acks) = self.acks->0.enqueued(peer, addr, key_id);
        (
            ServiceView {
                acks: Some(acks),
                flow: self.flow.with(
                    peer,
                    PeerFlow { ack_enqueued: bumped(f.ack_enqueued, 1), ..f },
                ),
                ..self
            },
            batch,
        )
    }

    pub open spec fn ack_impossible(self, peer: Seq<char>) -> ServiceView {
        let f = self.flow.of(peer);
        ServiceView {
            flow: self.flow.with(
                peer,
                PeerFlow { ack_no_endpoint: bumped(f.ack_no_endpoint, 1), ..f },
            ),
            ..self
        }
    }

    /// Acknowledges a key: at the address that the peer announces, or under this
    /// node's certificate, if there is a way to acknowledge at all.
    pub open spec fn acknowledging(
        self,
        peer: Seq<char>,
        endpoint: Option<Seq<char>>,
        key_id: Seq<char>,
    ) -> (ServiceView, Option<Seq<Seq<char>>>) {
        match endpoint {
            Some(ep) => {
                let noted = ServiceView {
                    flow: FlowView {
                        endpoints: self.flow.endpoints.insert(peer, ep),
                        ..self.flow
                    },
                    ..self
                };
                if self.acks is Some {
                    noted.ack_queued(peer, ep, key_id)
                } else {
                    (noted.ack_impossible(peer), None)
                }
            },
            None => if self.acks is Some && self.acks->0.has_route(self.peers, peer) {
                self.ack_queued(peer, Seq::empty(), key_id)
            } else {
                (self.ack_impossible(peer), None)
            },
        }
    }

    /// Whether an agreement with a peer is to be started: there must be a client that
    /// reaches peers, and the peer must be known.
    pub open spec fn may_agree(self, peer: Seq<char>, now_ns: u64) -> bool {
        self.has_peer_client && self.peers.peers.dom().contains(peer) && self.e2e.may_agree(
            peer,
            now_ns,
        )
    }

    /// Once an agreement with a peer was asked for. Where it is not to be started,
    /// nothing changes.
    pub open spec fn agreement_asked(self, peer: Seq<char>, now_ns: u64) -> ServiceView {
        if self.may_agree(peer, now_ns) {
            ServiceView { e2e: self.e2e.agreement_tried(peer, now_ns), ..self }
        } else {
            self
        }
    }

    /// Once a key that was opened is stored and acknowledged.
    pub open spec fn stored(
        self,
        source: Seq<char>,
        header: Map<Seq<char>, Seq<char>>,
        key_id: Seq<char>,
        key: Seq<u8>,
        now_ns: u64,
    ) -> (ServiceView, Option<Seq<Seq<char>>>) {
        self.incarnation_noted(source, header_text(header, HDR_INCARNATION@), now_ns).key_received(
            source,
            KeyView { id: key_id, bytes: key },
        ).acknowledging(source, header_text(header, HDR_ACK_ENDPOINT@), key_id)
    }
}

impl ServiceView {
    /// A delivery of transport key material: what the service becomes, and what is
    /// said of the delivery.
    pub open spec fn buffer_delivered(
        self,
        app: Map<Seq<char>, Seq<char>>,
        payload: Seq<u8>,
        now_ns: u64,
    ) -> (ServiceView, Result<DeliveryView, ErrorView>) {
        let source = app[HDR_SAE_ORIGIN@];
        let key_id = app[HDR_KEY_ID@];
        let f = self.flow.of(source);
        let (opened, e2e) = self.e2e.opened(source, app, key_id, payload, now_ns);
        match malformed(app, payload.len()) {
            Some(m) => (self, Err(ErrorView::BadRequest(m))),
            None => match opened {
                Ok(key) => {
                    let (after, batch) = (ServiceView { e2e, ..self }).stored(
                        source,
                        app,
                        key_id,
                        key,
                        now_ns,
                    );
                    (after, Ok(DeliveryView::Stored { batch }))
                },
                Err(E2eErrorView::UnknownEpoch { epoch, .. }) => {
                    let counted = ServiceView {
                        flow: self.flow.with(
                            source,
                            PeerFlow { recv_no_epoch: bumped(f.recv_no_epoch, 1), ..f },
                        ),
                        e2e,
                        ..self
                    };
                    (
                        counted.agreement_asked(source, now_ns),
                        Ok(
                            DeliveryView::UnknownEpoch {
                                epoch,
                                start_agreement: counted.may_agree(source, now_ns),
                            },
                        ),
                    )
                },
                Err(E2eErrorView::Replay(_)) => (
                    ServiceView {
                        flow: self.flow.with(
                            source,
                            PeerFlow { recv_replayed: bumped(f.recv_replayed, 1), ..f },
                        ),
                        e2e,
                        ..self
                    },
                    Ok(DeliveryView::Replayed),
                ),
                Err(_) => (
                    ServiceView {
                        flow: self.flow.with(
                            source,
                            PeerFlow { recv_corrupt: bumped(f.recv_corrupt, 1), ..f },
                        ),
                        e2e,
                        ..self
                    },
                    Ok(DeliveryView::Corrupt),
                ),
            },
        }
    }
}

pub open spec fn batch_view(b: Option<Vec<String>>) -> Option<Seq<Seq<char>>> {
    match b {
        Some(v) => Some(name_views(v@)),
        None => None,
    }
}

impl DkmsService {
    /// Forgets what was shared with an earlier run of a peer, so that it is made
    /// anew.
    pub fn forget_material_of_previous_incarnation(&mut self, peer: &str) -> (r: Forgotten)
        requires
            old(self).inv(),
        ensures
            final(self).inv(),
            final(self)@ == old(self)@.forgetting(peer@),
            old(self)@.loses(peer@, r),
    {
        let ghost before = self@;
        let enc: usize = self.pool.for_peer(peer).enc_clear();
        let dec: usize = self.pool.for_peer(peer).dec().clear();
        assert(self@.pool =~= before.forgetting(peer@).pool);
        let ack_pending: usize = match &mut self.generator {
            Some(g) => g.drop_pending(peer),
            None => 0,
        };
        Forgotten { enc, dec, ack_pending }
    }

    /// Notes which run of its process a peer is in. If it was restarted, what was
    /// shared with the earlier run is forgotten.
    pub fn note_peer_incarnation(&mut self, peer: &str, incarnation: &str, now_ns: u64) -> (r: Option<
        Forgotten,
    >)
        requires
            old(self).inv(),
        ensures
            final(self).inv(),
            final(self)@ == old(self)@.incarnation_noted(peer@, Some(incarnation@), now_ns),
            r is Some == old(self)@.incarnations.noted(
                peer@,
                incarnation@,
                now_ns,
                INCARNATION_WIPE_COOLDOWN_NS,
            ).0 is Some,
            r matches Some(f) ==> old(self)@.loses(peer@, f),
    {
        match self.peer_incarnations.note_at(
            peer,
            incarnation,
            now_ns,
            INCARNATION_WIPE_COOLDOWN_NS,
        ) {
            Some(_) => Some(self.forget_material_of_previous_incarnation(peer)),
            None => None,
        }
    }

    /// Whether an agreement with a peer is to be started now. If so it counts as
    /// under way until [`crate::e2e::E2e::end_agreement`].
    pub fn request_agreement(&mut self, peer: &str, now_ns: u64) -> (r: bool)
        requires
            old(self).inv(),
        ensures
            final(self).inv(),
            r == old(self)@.may_agree(peer@, now_ns),
            final(self)@ == old(self)@.agreement_asked(peer@, now_ns),
    {
        if !self.has_peer_client {
            return false;
        }
        match self.peers.get(peer) {
            Some(_) => self.e2e.try_start_agreement(peer, now_ns),
            None => false,
        }
    }

    fn store_key(&mut self, source: &str, key: TransportKey)
        requires
            old(self).inv(),
        ensures
            final(self).inv(),
            final(self)@ == old(self)@.key_received(source@, key@),
    {
        let ghost before = self@;
        let pushed = self.pool.for_peer(source).dec().try_push(key);
        match pushed {
            Ok(_) => {},
            Err(_) => {
                self.flow.dec_dropped(source, 1);
            },
        }
        self.flow.recv(source, 1);
        assert(self@.pool =~= before.key_received(source@, key@).pool);
        assert(self@.flow =~= before.key_received(source@, key@).flow);
    }

    fn acknowledge(&mut self, source: &str, endpoint: Option<&str>, key_id: &str) -> (r: Option<
        Vec<String>,
    >)
        requires
            old(self).inv(),
        ensures
            final(self).inv(),
            (final(self)@, batch_view(r)) == old(self)@.acknowledging(
                source@,
                crate::service::planning::text_option(endpoint),
                key_id@,
            ),
    {
        match endpoint {
            Some(ep) => {
                self.flow.note_endpoint(source, ep);
                match &mut self.ack_client {
                    Some(client) => client.enqueue(&mut self.flow, source, ep, key_id),
                    None => {
                        self.flow.ack_no_endpoint(source, 1);
                        None
                    },
                }
            },
            None => {
                let route: bool = match &self.ack_client {
                    Some(client) => client.has_etsi020_route(&self.peers, source),
                    None => false,
                };
                if route {
                    proof {
                        reveal_strlit("");
                        assert(""@ =~= Seq::<char>::empty());
                    }
                    match &mut self.ack_client {
                        Some(client) => client.enqueue(&mut self.flow, source, "", key_id),
                        None => None,
                    }
                } else {
                    self.flow.ack_no_endpoint(source, 1);
                    None
                }
            },
        }
    }

    /// Takes a delivery of transport key material. Nothing in it is trusted before
    /// it is opened: what cannot be opened is counted, dropped and not acknowledged.
    pub fn handle_orr_delivery_buffer(&mut self, app: &Headers, payload: &[u8], now_ns: u64) -> (r:
        Result<Delivery, DkmsError>)
        requires
            old(self).inv(),
            app.inv(),
            payload@.len() <= GCM_STREAM || payload@.len() > GCM_CIPHER_MAX,
        ensures
            final(self).inv(),
            (final(self)@, delivery_result(r)) == old(self)@.buffer_delivered(app@, payload@, now_ns),
    {
        let ghost before = self@;
        let key_id = match app.get(HDR_KEY_ID) {
            Some(k) => k,
            None => {
                return Err(DkmsError::BadRequest(join2("orr buffer delivery missing ", HDR_KEY_ID)));
            },
        };
        let source = match app.get(HDR_SAE_ORIGIN) {
            Some(s) => s,
            None => {
                return Err(
                    DkmsError::BadRequest(join2("orr buffer delivery missing ", HDR_SAE_ORIGIN)),
                );
            },
        };
        let bits: Option<u64> = match app.get(HDR_KEY_SIZE_BITS) {
            Some(t) => parse_number(t, 10, u32::MAX as u64),
            None => None,
        };
        let len: usize = payload.len();
        if let Some(b) = bits {
            let expected: u64 = b / 8 + if b % 8 == 0 { 0u64 } else { 1u64 };
            if len as u64 != expected {
                let head = join3("orr buffer delivery ", key_id, ": payload ");
                let mid = join3(head.as_str(), decimal_text(len as u64).as_str(), " bytes, header ");
                return Err(
                    DkmsError::BadRequest(
                        join3(mid.as_str(), decimal_text(b).as_str(), " bits"),
                    ),
                );
            }
        }
        assert(malformed(app@, payload@.len()) is None);
        let plaintext = match self.e2e.open_at(source, app, key_id, payload, now_ns) {
            Ok(p) => p,
            Err(E2eError::UnknownEpoch { epoch, .. }) => {
                self.flow.recv_no_epoch(source, 1);
                let start_agreement = self.request_agreement(source, now_ns);
                return Ok(Delivery::UnknownEpoch { epoch, start_agreement });
            },
            Err(E2eError::Replay(_)) => {
                self.flow.recv_replayed(source, 1);
                return Ok(Delivery::Replayed);
            },
            Err(_) => {
                self.flow.recv_corrupt(source, 1);
                return Ok(Delivery::Corrupt);
            },
        };
        if let Some(inc) = app.get(HDR_INCARNATION) {
            self.note_peer_incarnation(source, inc, now_ns);
        }
        let key = TransportKey { id: KeyId::new(key_id), bytes: plaintext };
        self.store_key(source, key);
        let batch = self.acknowledge(source, app.get(HDR_ACK_ENDPOINT), key_id);
        Ok(Delivery::Stored { batch })
    }

    /// Takes a delivery. Only transport key material is taken: session keys do not
    /// come this way.
    pub fn handle_orr_delivery(&mut self, app: &Headers, payload: &[u8], now_ns: u64) -> (r: Result<
        Delivery,
        DkmsError,
    >)
        requires
            old(self).inv(),
            app.inv(),
            payload@.len() <= GCM_STREAM || payload@.len() > GCM_CIPHER_MAX,
        ensures
            final(self).inv(),
            (final(self)@, delivery_result(r)) == (if header_text(app@, HDR_MSG_TYPE@) == Some(
                MSG_TYPE_DKMS_BUFFER@,
            ) {
                old(self)@.buffer_delivered(app@, payload@, now_ns)
            } else {
                (old(self)@, Ok(DeliveryView::NotForUs))
            }),
    {
        let buffer: bool = match app.get(HDR_MSG_TYPE) {
            Some(t) => text_eq(t, MSG_TYPE_DKMS_BUFFER),
            None => false,
        };
        if buffer {
            self.handle_orr_delivery_buffer(app, payload, now_ns)
        } else {
            Ok(Delivery::NotForUs)
        }
    }
}

} // verus!
