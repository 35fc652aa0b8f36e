//! What applications take and what other nodes send.
use crate::buffers::{lemma_position, position, BufferView};
use crate::clock::SECOND;
use crate::crypto::otp::xored;
use crate::crypto::primitives::wipe;
use crate::error::{DkmsError, ErrorView};
use crate::etsi::{
    delivered, wrapped, DeliveredKey, Etsi014Key, Etsi020AckStatus, Etsi020ExtKeyAckContainer,
    Etsi020ExtKeyContainer, WrappedKey,
};
use crate::flow_stats::{bumped, FlowView, PeerFlow};
use crate::generator::KeyFlow;
use crate::ids::{KeyId, NodeId, SaeId};
use crate::names::name_views;
use crate::orr::{digest_text, key_digest};
use crate::pending::{sae_set, PendingKey, PendingKeys};
use crate::service::planning::sae_views;
use crate::service::session::{too_short, unwrap_session_key};
use crate::service::{DkmsService, ServiceView};
use crate::text::text_eq;
use crate::token_bucket::capped;
use vstd::prelude::*;
use vstd::string::*;

verus! {

/// An application takes one key.
pub open spec fn take_one(pending: PendingKeys, sae: Seq<char>, id: Seq<char>, now_ns: u64) -> (
    PendingKeys,
    Result<DeliveredKey, ErrorView>,
) {
    if pending.available(id, sae, now_ns) {
        (
            pending.taken(id, sae),
            Ok(DeliveredKey { key_id: id, key: pending.keys[id].bytes }),
        )
    } else if pending.keys.dom().contains(id) && pending.keys[id].authorized.contains(sae) {
        (pending, Err(ErrorView::KeyExpired))
    } else {
        (pending, Err(ErrorView::KeyNotAuthorized { sae }))
    }
}

/// An application takes keys in turn, until there is one that it does not get.
pub open spec fn take_all(
    pending: PendingKeys,
    sae: Seq<char>,
    ids: Seq<Seq<char>>,
    now_ns: u64,
) -> (PendingKeys, Result<Seq<DeliveredKey>, ErrorView>)
    decreases ids.len(),
{
    if ids.len() == 0 {
        (pending, Ok(Seq::empty()))
    } else {
        let (left, done) = take_all(pending, sae, ids.drop_last(), now_ns);
        match done {
            Err(e) => (left, Err(e)),
            Ok(list) => {
                let (after, one) = take_one(left, sae, ids.last(), now_ns);
                match one {
                    Err(e) => (after, Err(e)),
                    Ok(k) => (after, Ok(list.push(k))),
                }
            },
        }
    }
}

proof fn lemma_take_stops(
    pending: PendingKeys,
    sae: Seq<char>,
    ids: Seq<Seq<char>>,
    now_ns: u64,
    i: int,
)
    requires
        0 <= i <= ids.len(),
        take_all(pending, sae, ids.take(i), now_ns).1 is Err,
    ensures
        take_all(pending, sae, ids, now_ns) == take_all(pending, sae, ids.take(i), now_ns),
    decreases ids.len() - i,
{
    if i == ids.len() {
        assert(ids.take(i) =~= ids);
    } else {
        assert(ids.take(i + 1).drop_last() =~= ids.take(i));
        lemma_take_stops(pending, sae, ids, now_ns, i + 1);
    }
}

/// What session keys from another node change.
#[verifier::ext_equal]
pub struct Intake {
    /// Transport keys that the sender encrypts with.
    pub dec: BufferView,
    pub pending: PendingKeys,
    pub flow: FlowView,
}

/// Who session keys from another node are from and for.
#[verifier::ext_equal]
pub struct Consignment {
    pub peer: Seq<char>,
    pub initiator: Seq<char>,
    pub targets: Set<Seq<char>>,
    pub ttl_ns: Option<u64>,
}

/// Takes in one session key: it is decrypted, held against its fingerprint, and
/// kept for its applications. The name of a key that is kept is given back. One
/// that does not match its fingerprint is dropped and counted.
pub open spec fn take_in_one(st: Intake, c: Consignment, k: WrappedKey, now_ns: u64) -> (
    Intake,
    Result<Option<Seq<char>>, ErrorView>,
) {
    match k.transport_key_id {
        None => (
            st,
            Err(ErrorView::BadRequest("Etsi020Key.extension.transport_key_id missing"@)),
        ),
        Some(t) => match position(st.dec.keys, t) {
            None => (st, Err(ErrorView::TransportKeyMissing { peer: c.peer, key_id: t })),
            Some(i) => {
                let tk = st.dec.keys[i];
                let used = Intake { dec: st.dec.without(i), ..st };
                let plain = xored(k.value, tk.bytes);
                if tk.bytes.len() < k.value.len() {
                    (
                        used,
                        Err(
                            ErrorView::Crypto(
                                too_short(tk.bytes.len(), "ciphertext"@, k.value.len()),
                            ),
                        ),
                    )
                } else if k.session_key_digest is Some && k.session_key_digest->0 != digest_text(
                    k.key_id,
                    plain,
                ) {
                    let f = st.flow.of(c.peer);
                    (
                        Intake {
                            flow: st.flow.with(
                                c.peer,
                                PeerFlow { recv_corrupt: bumped(f.recv_corrupt, 1), ..f },
                            ),
                            ..used
                        },
                        Ok(None),
                    )
                } else {
                    (
                        Intake {
                            pending: st.pending.inserted(
                                k.key_id,
                                PendingKey {
                                    initiator: c.initiator,
                                    authorized: c.targets,
                                    bytes: plain,
                                    deadline_ns: st.pending.deadline(now_ns, c.ttl_ns),
                                },
                            ),
                            ..used
                        },
                        Ok(Some(k.key_id)),
                    )
                }
            },
        },
    }
}

/// Takes in session keys in turn, until one cannot be, and gives back the names of
/// those that are kept.
pub open spec fn take_in_all(st: Intake, c: Consignment, keys: Seq<WrappedKey>, now_ns: u64) -> (
    Intake,
    Result<Seq<Seq<char>>, ErrorView>,
)
    decreases keys.len(),
{
    if keys.len() == 0 {
        (st, Ok(Seq::empty()))
    } else {
        let (mid, done) = take_in_all(st, c, keys.drop_last(), now_ns);
        match done {
            Err(e) => (mid, Err(e)),
            Ok(list) => {
                let (after, one) = take_in_one(mid, c, keys.last(), now_ns);
                match one {
                    Err(e) => (after, Err(e)),
                    Ok(Some(id)) => (after, Ok(list.push(id))),
                    Ok(None) => (after, Ok(list)),
                }
            },
        }
    }
}

proof fn lemma_intake_stops(st: Intake, c: Consignment, keys: Seq<WrappedKey>, now_ns: u64, i: int)
    requires
        0 <= i <= keys.len(),
        take_in_all(st, c, keys.take(i), now_ns).1 is Err,
    ensures
        take_in_all(st, c, keys, now_ns) == take_in_all(st, c, keys.take(i), now_ns),
    decreases keys.len() - i,
{
    if i == keys.len() {
        assert(keys.take(i) =~= keys);
    } else {
        assert(keys.take(i + 1).drop_last() =~= keys.take(i));
        lemma_intake_stops(st, c, keys, now_ns, i + 1);
    }
}

/// How long keys are kept, in nanoseconds.
pub open spec fn ttl_ns_of(ttl_seconds: Option<u64>) -> Option<u64> {
    match ttl_seconds {
        Some(s) => Some(capped(s * SECOND)),
        None => None,
    }
}

pub open spec fn consignment(peer: Seq<char>, body: Etsi020ExtKeyContainer) -> Consignment {
    Consignment {
        peer,
        initiator: body.initiator_sae_id@,
        targets: name_views(body.target_sae_ids@).to_set(),
        ttl_ns: ttl_ns_of(body.ttl_seconds),
    }
}

impl ServiceView {
    /// What session keys from `peer` may change.
    pub open spec fn intake(self, peer: Seq<char>) -> Intake {
        Intake { dec: self.pool.of(peer).dec, pending: self.pending, flow: self.flow }
    }

    pub open spec fn with_intake(self, peer: Seq<char>, st: Intake) -> ServiceView {
        ServiceView {
            pool: self.pool.with(peer, self.pool.of(peer).with_dec(st.dec)),
            pending: st.pending,
            flow: st.flow,
            ..self
        }
    }
}

impl DkmsService {
    /// Hands an application the keys that it names, if all of them wait for it.
    pub fn handle_dec_keys(&mut self, requester: &SaeId, key_ids: &Vec<String>, now_ns: u64) -> (r:
        Result<Vec<Etsi014Key>, DkmsError>)
        requires
            old(self).inv(),
        ensures
            final(self).inv(),
            if !old(self)@.authorized(requester@) {
                &&& final(self)@ == old(self)@
                &&& r matches Err(e) && e@ == ErrorView::UnknownSae(requester@)
            } else {
                let (pending, taken) = take_all(
                    old(self)@.pending,
                    requester@,
                    name_views(key_ids@),
                    now_ns,
                );
                &&& final(self)@ == (ServiceView { pending, ..old(self)@ })
                &&& match (r, taken) {
                    (Ok(v), Ok(list)) => delivered(v@) == list,
                    (Err(e), Err(x)) => e@ == x,
                    _ => false,
                }
            },
    {
        match self.authorize_local_sae(requester) {
            Err(e) => {
                return Err(e);
            },
            Ok(_) => {},
        }
        let ghost before = self@;
        let ghost ids = name_views(key_ids@);
        let n: usize = key_ids.len();
        let mut out: Vec<Etsi014Key> = Vec::new();
        let mut i: usize = 0;
        proof {
            assert(ids.take(0) =~= Seq::<Seq<char>>::empty());
            assert(delivered(out@) =~= Seq::<DeliveredKey>::empty());
        }
        while i < n
            invariant
                n == key_ids@.len(),
                i <= n,
                ids == name_views(key_ids@),
                before == old(self)@,
                before.authorized(requester@),
                self.inv(),
                self@ == (ServiceView {
                    pending: take_all(
                        before.pending,
                        requester@,
                        ids.take(i as int),
                        now_ns,
                    ).0,
                    ..before
                }),
                take_all(before.pending, requester@, ids.take(i as int), now_ns).1 == Ok::<
                    Seq<DeliveredKey>,
                    ErrorView,
                >(delivered(out@)),
            decreases n - i,
        {
            let ghost out0 = delivered(out@);
            let ghost next = take_all(before.pending, requester@, ids.take(i + 1), now_ns);
            proof {
                assert(ids.take(i + 1).drop_last() =~= ids.take(i as int));
                assert(ids.take(i + 1).last() == key_ids@[i as int]@);
            }
            let id = KeyId::new(key_ids[i].as_str());
            match self.pending.take_for_sae(&id, requester, now_ns) {
                Ok((key, _)) => {
                    out.push(Etsi014Key { key_id: key_ids[i].as_str().to_owned(), key });
                    assert(delivered(out@) =~= out0.push(out@.last()@));
                    assert(delivered(out@) =~= next.1->Ok_0);
                },
                Err(e) => {
                    proof {
                        lemma_take_stops(before.pending, requester@, ids, now_ns, i + 1);
                    }
                    return Err(e);
                },
            }
            i = i + 1;
        }
        assert(ids.take(n as int) =~= ids);
        Ok(out)
    }

    /// Takes in the session keys that another node sends and acknowledges those
    /// that are kept.
    pub fn handle_incoming_ext_keys(
        &mut self,
        peer: &NodeId,
        body: &Etsi020ExtKeyContainer,
        now_ns: u64,
    ) -> (r: Result<Etsi020ExtKeyAckContainer, DkmsError>)
        requires
            old(self).inv(),
        ensures
            final(self).inv(),
            ({
                let (st, taken) = take_in_all(
                    old(self)@.intake(peer@),
                    consignment(peer@, *body),
                    wrapped(body.keys@),
                    now_ns,
                );
                &&& final(self)@ == old(self)@.with_intake(peer@, st)
                &&& match (r, taken) {
                    (Ok(ack), Ok(ids)) => {
                        &&& name_views(ack.key_ids@) == ids
                        &&& ack.ack_status == Etsi020AckStatus::Relayed
                        &&& ack.initiator_sae_id@ == body.initiator_sae_id@
                        &&& ack.target_sae_id@ == (if body.target_sae_ids@.len() == 0 {
                            Seq::empty()
                        } else {
                            body.target_sae_ids@[0]@
                        })
                    },
                    (Err(e), Err(x)) => e@ == x,
                    _ => false,
                }
            }),
    {
        let ghost before = self@;
        let ghost c = consignment(peer@, *body);
        let ghost keys = wrapped(body.keys@);
        let ghost start = before.intake(peer@);
        let initiator = SaeId::new(body.initiator_sae_id.as_str());
        let t: usize = body.target_sae_ids.len();
        let mut authorized: Vec<SaeId> = Vec::new();
        let mut j: usize = 0;
        while j < t
            invariant
                t == body.target_sae_ids@.len(),
                j <= t,
                authorized@.len() == j,
                forall|a: int|
                    0 <= a < j ==> (#[trigger] authorized@[a])@ == body.target_sae_ids@[a]@,
            decreases t - j,
        {
            authorized.push(SaeId::new(body.target_sae_ids[j].as_str()));
            j = j + 1;
        }
        assert(sae_views(authorized@) =~= name_views(body.target_sae_ids@));
        let ttl_ns: Option<u64> = match body.ttl_seconds {
            Some(s) => Some(
                match s.checked_mul(SECOND) {
                    Some(ns) => ns,
                    None => u64::MAX,
                },
            ),
            None => None,
        };
        let _ = self.pool.for_peer(peer.as_str());
        let n: usize = body.keys.len();
        let mut ack_ids: Vec<String> = Vec::new();
        let mut i: usize = 0;
        proof {
            assert(keys.take(0) =~= Seq::<WrappedKey>::empty());
            assert(name_views(ack_ids@) =~= Seq::<Seq<char>>::empty());
            assert(self@.pool =~= before.with_intake(peer@, start).pool);
        }
        while i < n
            invariant
                n == body.keys@.len(),
                i <= n,
                before == old(self)@,
                start == before.intake(peer@),
                c == consignment(peer@, *body),
                c.ttl_ns == ttl_ns,
                c.initiator == initiator@,
                c.targets == sae_set(authorized@),
                keys == wrapped(body.keys@),
                self.inv(),
                self@ == before.with_intake(
                    peer@,
                    take_in_all(start, c, keys.take(i as int), now_ns).0,
                ),
                take_in_all(start, c, keys.take(i as int), now_ns).1 == Ok::<
                    Seq<Seq<char>>,
                    ErrorView,
                >(name_views(ack_ids@)),
            decreases n - i,
        {
            let ghost mid = take_in_all(start, c, keys.take(i as int), now_ns).0;
            let ghost acks0 = name_views(ack_ids@);
            let ghost next = take_in_all(start, c, keys.take(i + 1), now_ns);
            let ghost kv = keys[i as int];
            proof {
                assert(keys.take(i + 1).drop_last() =~= keys.take(i as int));
                assert(keys.take(i + 1).last() == kv);
                assert(kv == body.keys@[i as int]@);
            }
            let k = &body.keys[i];
            let tk_text = match &k.transport_key_id {
                Some(t) => t.as_str(),
                None => {
                    proof {
                        lemma_intake_stops(start, c, keys, now_ns, i + 1);
                    }
                    return Err(
                        DkmsError::BadRequest(
                            "Etsi020Key.extension.transport_key_id missing".to_owned(),
                        ),
                    );
                },
            };
            assert(kv.transport_key_id == Some(tk_text@));
            let tk_id = KeyId::new(tk_text);
            proof {
                lemma_position(mid.dec.keys, tk_text@);
                assert(self@.pool.of(peer@).dec == mid.dec);
            }
            let taken = self.pool.for_peer(peer.as_str()).dec().take_by_id(&tk_id);
            let tk = match taken {
                Some(tk) => tk,
                None => {
                    proof {
                        lemma_intake_stops(start, c, keys, now_ns, i + 1);
                        assert(self@.pool =~= before.with_intake(peer@, next.0).pool);
                    }
                    return Err(
                        DkmsError::TransportKeyMissing {
                            peer: peer.as_str().to_owned(),
                            key_id: tk_text.to_owned(),
                        },
                    );
                },
            };
            assert(self@.pool =~= before.with_intake(peer@, next.0).pool);
            let plain = match unwrap_session_key(tk.bytes.as_slice(), k.value.as_slice()) {
                Ok(p) => p,
                Err(m) => {
                    proof {
                        lemma_intake_stops(start, c, keys, now_ns, i + 1);
                    }
                    return Err(DkmsError::Crypto(m));
                },
            };
            tk.discard();
            let genuine: bool = match &k.session_key_digest {
                Some(expected) => {
                    let actual = key_digest(k.key_id.as_str(), plain.as_slice());
                    text_eq(actual.as_str(), expected.as_str())
                },
                None => true,
            };
            if genuine {
                let id = KeyId::new(k.key_id.as_str());
                self.pending.insert(&id, &initiator, &authorized, plain, ttl_ns, now_ns);
                ack_ids.push(k.key_id.as_str().to_owned());
                assert(name_views(ack_ids@) =~= acks0.push(kv.key_id));
            } else {
                let mut plain = plain;
                wipe(&mut plain);
                self.flow.recv_corrupt(peer.as_str(), 1);
            }
            i = i + 1;
        }
        assert(keys.take(n as int) =~= keys);
        let target_sae_id = if t == 0 {
            String::new()
        } else {
            body.target_sae_ids[0].as_str().to_owned()
        };
        assert(t == 0 ==> target_sae_id@ =~= Seq::<char>::empty());
        Ok(
            Etsi020ExtKeyAckContainer {
                key_ids: ack_ids,
                ack_status: Etsi020AckStatus::Relayed,
                initiator_sae_id: body.initiator_sae_id.as_str().to_owned(),
                target_sae_id,
            },
        )
    }

    /// Another node acknowledges transport keys under its certificate. Says how many
    /// of them were waiting for it.
    pub fn handle_incoming_ack(&mut self, peer: &NodeId, key_ids: &Vec<KeyId>) -> (r: usize)
        requires
            old(self).inv(),
        ensures
            final(self).inv(),
            match old(self)@.gen {
                None => r == 0 && final(self)@ == old(self)@,
                Some(g) => {
                    let (f, n) = (KeyFlow {
                        gen: g,
                        pool: old(self)@.pool,
                        flow: old(self)@.flow,
                    }).acknowledged_all(peer@, key_ids@.map_values(|k: KeyId| k@));
                    &&& r == n
                    &&& final(self)@ == (ServiceView {
                        gen: Some(f.gen),
                        pool: f.pool,
                        flow: f.flow,
                        ..old(self)@
                    })
                },
            },
    {
        match &mut self.generator {
            Some(g) => g.on_acks(&mut self.pool, &mut self.flow, peer.as_str(), key_ids),
            None => 0,
        }
    }
}

} // verus!
