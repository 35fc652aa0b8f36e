//! What holds of the service as a whole, and of two nodes together.
use crate::buffers::{lemma_position, position, BufferView, KeyView, PeerKeys};
use crate::crypto::otp::{xor_undoes_itself, xored};
use crate::e2e::laws::what_is_sealed_opens;
use crate::e2e::{E2eErrorView, E2eView, HDR_E2E_CTR, HDR_E2E_EPOCH, HDR_E2E_TAG};
use crate::error::ErrorView;
use crate::etsi::WrappedKey;
use crate::flow_stats::bumped;
use crate::generator::{emission_header, GeneratorView};
use crate::orr::{
    digest_text, HDR_ACK_ENDPOINT, HDR_INCARNATION, HDR_KEY_DIGEST, HDR_KEY_ID, HDR_KEY_SIZE_BITS,
    HDR_MSG_TYPE, HDR_REQUEST_ID, HDR_SAE_ORIGIN, HDR_TIMESTAMP_MS, MSG_TYPE_DKMS_BUFFER,
};
use crate::pending::{PendingKey, PendingKeys};
use crate::security::{first_available, GradeResolution, KeyGrade, SecurityLevel};
use crate::service::delivery::{header_text, malformed, DeliveryView};
use crate::service::distribution::{
    distribution, ids_of, refund_of, withdrawn, wrap_all, wrap_one, AdmissionStep,
};
use crate::service::incoming::{take_in_all, take_in_one, take_one, Consignment, Intake};
use crate::service::planning::{group_views, sae_views, EncPlan};
use crate::service::session::SessionView;
use crate::service::ServiceView;
use crate::text::{decimal, decimal_reads_back, parsed_number};
use crate::token_bucket::{capped, cost_is_shared_out, cost_of, late_refund_undoes_a_request};
use vstd::prelude::*;

verus! {

/// Whether everything that one end of a link encrypts with, the other end has to
/// decrypt with: the same keys, no two of one name at either end.
pub open spec fn shared(keys: PeerKeys, dec: BufferView) -> bool {
    &&& forall|g: KeyGrade, i: int|
        #![trigger keys.enc(g).keys[i]]
        0 <= i < keys.enc(g).keys.len() ==> dec.keys.contains(keys.enc(g).keys[i])
    &&& forall|i: int, j: int|
        0 <= i < j < dec.keys.len() ==> (#[trigger] dec.keys[i]).id != (#[trigger] dec.keys[j]).id
    &&& forall|g: KeyGrade, i: int, j: int|
        #![trigger keys.enc(g).keys[i], keys.enc(g).keys[j]]
        0 <= i < j < keys.enc(g).keys.len() ==> keys.enc(g).keys[i].id != keys.enc(g).keys[j].id
    &&& forall|i: int, j: int|
        0 <= i < keys.qkd.keys.len() && 0 <= j < keys.pqc.keys.len() ==> (
        #[trigger] keys.qkd.keys[i]).id != (#[trigger] keys.pqc.keys[j]).id
}

proof fn lemma_served_has_keys(prefs: Seq<KeyGrade>, qkd: bool, pqc: bool)
    ensures
        first_available(prefs, qkd, pqc) matches GradeResolution::Serve(g) ==> match g {
            KeyGrade::Qkd => qkd,
            KeyGrade::Pqc => pqc,
        },
    decreases prefs.len(),
{
    if prefs.len() > 0 {
        lemma_served_has_keys(prefs.drop_first(), qkd, pqc);
    }
}

/// One session key arrives as it was sent, and what is left of the link's keys is
/// still shared.
proof fn lemma_one_arrives(
    keys: PeerKeys,
    peer: Seq<char>,
    prefs: Seq<KeyGrade>,
    session: SessionView,
    st: Intake,
    c: Consignment,
    now_ns: u64,
)
    requires
        shared(keys, st.dec),
        wrap_one(keys, peer, prefs, session).1 is Ok,
    ensures
        ({
            let (left, w) = wrap_one(keys, peer, prefs, session);
            let (after, r) = take_in_one(st, c, w->Ok_0, now_ns);
            &&& shared(left, after.dec)
            &&& r == Ok::<Option<Seq<char>>, ErrorView>(Some(session.id))
            &&& after.flow == st.flow
            &&& after.pending == st.pending.inserted(
                session.id,
                PendingKey {
                    initiator: c.initiator,
                    authorized: c.targets,
                    bytes: session.bytes,
                    deadline_ns: st.pending.deadline(now_ns, c.ttl_ns),
                },
            )
        }),
{
    let (left, wr) = wrap_one(keys, peer, prefs, session);
    let w = wr->Ok_0;
    lemma_served_has_keys(prefs, keys.qkd.keys.len() > 0, keys.pqc.keys.len() > 0);
    let g = keys.served(prefs)->Serve_0;
    let tk = keys.enc(g).keys[0];
    assert(st.dec.keys.contains(keys.enc(g).keys[0]));
    let at = choose|a: int| 0 <= a < st.dec.keys.len() && st.dec.keys[a] == tk;
    lemma_position(st.dec.keys, tk.id);
    let i = position(st.dec.keys, tk.id)->0;
    assert(position(st.dec.keys, tk.id) is Some);
    assert(i == at) by {
        if i < at {
            assert(st.dec.keys[i].id != st.dec.keys[at].id);
        } else if at < i {
            assert(st.dec.keys[at].id != st.dec.keys[i].id);
        }
    }
    xor_undoes_itself(session.bytes, tk.bytes);
    let (after, r) = take_in_one(st, c, w, now_ns);
    let d1 = after.dec.keys;
    assert(d1 == st.dec.keys.remove(i));
    assert forall|h: KeyGrade, n: int|
        #![trigger left.enc(h).keys[n]]
        0 <= n < left.enc(h).keys.len() implies d1.contains(left.enc(h).keys[n]) by {
        let k = left.enc(h).keys[n];
        let m = if h == g {
            n + 1
        } else {
            n
        };
        assert(k == keys.enc(h).keys[m]);
        assert(k.id != tk.id) by {
            if h == g {
                assert(keys.enc(g).keys[0].id != keys.enc(g).keys[m].id);
            } else {
                match g {
                    KeyGrade::Qkd => {
                        assert(keys.qkd.keys[0].id != keys.pqc.keys[m].id);
                    },
                    KeyGrade::Pqc => {
                        assert(keys.qkd.keys[m].id != keys.pqc.keys[0].id);
                    },
                }
            }
        }
        assert(st.dec.keys.contains(keys.enc(h).keys[m]));
        let p = choose|p: int| 0 <= p < st.dec.keys.len() && st.dec.keys[p] == k;
        if p < i {
            assert(d1[p] == k);
        } else {
            assert(p > i);
            assert(d1[p - 1] == k);
        }
    }
    assert forall|a: int, b: int| 0 <= a < b < d1.len() implies (#[trigger] d1[a]).id != (
    #[trigger] d1[b]).id by {
        let a0 = if a < i {
            a
        } else {
            a + 1
        };
        let b0 = if b < i {
            b
        } else {
            b + 1
        };
        assert(d1[a] == st.dec.keys[a0] && d1[b] == st.dec.keys[b0]);
    }
    assert forall|h: KeyGrade, a: int, b: int|
        #![trigger left.enc(h).keys[a], left.enc(h).keys[b]]
        0 <= a < b < left.enc(h).keys.len() implies left.enc(h).keys[a].id
        != left.enc(h).keys[b].id by {
        let s = if h == g {
            1int
        } else {
            0int
        };
        assert(left.enc(h).keys[a] == keys.enc(h).keys[a + s]);
        assert(left.enc(h).keys[b] == keys.enc(h).keys[b + s]);
    }
    assert forall|a: int, b: int| 0 <= a < left.qkd.keys.len() && 0 <= b < left.pqc.keys.len() implies (
    #[trigger] left.qkd.keys[a]).id != (#[trigger] left.pqc.keys[b]).id by {
        let a0 = if g == KeyGrade::Qkd {
            a + 1
        } else {
            a
        };
        let b0 = if g == KeyGrade::Pqc {
            b + 1
        } else {
            b
        };
        assert(left.qkd.keys[a] == keys.qkd.keys[a0]);
        assert(left.pqc.keys[b] == keys.pqc.keys[b0]);
    }
}

/// Session keys arrive as they were sent. Where both ends of a link hold the same
/// transport keys, every session key that one end encrypts is decrypted, kept for
/// the applications it is for and acknowledged at the other end, byte for byte; and
/// the ends still hold the same transport keys.
pub proof fn session_keys_arrive(
    keys: PeerKeys,
    peer: Seq<char>,
    prefs: Seq<KeyGrade>,
    session: Seq<SessionView>,
    st: Intake,
    c: Consignment,
    now_ns: u64,
)
    requires
        shared(keys, st.dec),
        wrap_all(keys, peer, prefs, session).1 is Ok,
        forall|i: int, j: int|
            0 <= i < j < session.len() ==> (#[trigger] session[i]).id != (#[trigger] session[j]).id,
    ensures
        ({
            let (left, sent) = wrap_all(keys, peer, prefs, session);
            let (after, acked) = take_in_all(st, c, sent->Ok_0, now_ns);
            &&& acked == Ok::<Seq<Seq<char>>, ErrorView>(ids_of(session))
            &&& shared(left, after.dec)
            &&& after.flow == st.flow
            &&& after.pending.default_ttl_ns == st.pending.default_ttl_ns
            &&& forall|i: int|
                0 <= i < session.len() ==> after.pending.keys.contains_pair(
                    (#[trigger] session[i]).id,
                    PendingKey {
                        initiator: c.initiator,
                        authorized: c.targets,
                        bytes: session[i].bytes,
                        deadline_ns: st.pending.deadline(now_ns, c.ttl_ns),
                    },
                )
        }),
    decreases session.len(),
{
    if session.len() == 0 {
        assert(ids_of(session) =~= Seq::<Seq<char>>::empty());
    } else {
        let init = session.drop_last();
        assert forall|i: int, j: int| 0 <= i < j < init.len() implies (#[trigger] init[i]).id != (
        #[trigger] init[j]).id by {
            assert(session[i].id != session[j].id);
        }
        session_keys_arrive(keys, peer, prefs, init, st, c, now_ns);
        let (left0, sent0) = wrap_all(keys, peer, prefs, init);
        let (mid, acked0) = take_in_all(st, c, sent0->Ok_0, now_ns);
        let (left, sent) = wrap_all(keys, peer, prefs, session);
        let last = session.last();
        lemma_one_arrives(left0, peer, prefs, last, mid, c, now_ns);
        let w = wrap_one(left0, peer, prefs, last).1->Ok_0;
        assert(sent->Ok_0 == sent0->Ok_0.push(w));
        assert(sent->Ok_0.drop_last() =~= sent0->Ok_0);
        assert(sent->Ok_0.last() == w);
        let (after, acked) = take_in_all(st, c, sent->Ok_0, now_ns);
        assert(ids_of(session) =~= ids_of(init).push(last.id));
        assert forall|i: int| 0 <= i < session.len() implies after.pending.keys.contains_pair(
            (#[trigger] session[i]).id,
            PendingKey {
                initiator: c.initiator,
                authorized: c.targets,
                bytes: session[i].bytes,
                deadline_ns: st.pending.deadline(now_ns, c.ttl_ns),
            },
        ) by {
            if i < init.len() {
                assert(init[i] == session[i]);
                assert(session[i].id != session[init.len() as int].id);
            }
        }
    }
}

/// A session key that arrived goes to every application it is for, and to no other,
/// until its time is up.
pub proof fn arrived_key_is_handed_out(
    pending: PendingKeys,
    id: Seq<char>,
    key: PendingKey,
    sae: Seq<char>,
    now_ns: u64,
)
    requires
        pending.keys.contains_pair(id, key),
        now_ns < key.deadline_ns,
    ensures
        key.authorized.contains(sae) ==> (take_one(pending, sae, id, now_ns).1 matches Ok(k) && k.key
            == key.bytes && k.key_id == id),
        !key.authorized.contains(sae) ==> take_one(pending, sae, id, now_ns).1 is Err && take_one(
            pending,
            sae,
            id,
            now_ns,
        ).0 == pending,
{
}

/// A session key that does not match its fingerprint is neither kept nor
/// acknowledged: only the transport key is used up, and the sender's counter goes up.
pub proof fn mismatched_key_is_dropped(st: Intake, c: Consignment, k: WrappedKey, now_ns: u64)
    requires
        k.transport_key_id is Some,
        k.session_key_digest is Some,
        ({
            let at = position(st.dec.keys, k.transport_key_id->0);
            at is Some && ({
                let tk = st.dec.keys[at->0];
                tk.bytes.len() >= k.value.len() && k.session_key_digest->0 != digest_text(
                    k.key_id,
                    xored(k.value, tk.bytes),
                )
            })
        }),
    ensures
        ({
            let (after, r) = take_in_one(st, c, k, now_ns);
            &&& r == Ok::<Option<Seq<char>>, ErrorView>(None)
            &&& after.pending == st.pending
            &&& after.flow.of(c.peer).recv_corrupt == bumped(st.flow.of(c.peer).recv_corrupt, 1)
        }),
{
}

/// A request for strict QKD uses QKD keys only, one for each session key.
pub proof fn strict_requests_use_qkd_keys_only(
    keys: PeerKeys,
    peer: Seq<char>,
    session: Seq<SessionView>,
)
    ensures
        ({
            let (left, sent) = wrap_all(keys, peer, SecurityLevel::StrictQkd.prefs(), session);
            &&& left.pqc == keys.pqc
            &&& left.dec == keys.dec
            &&& sent is Ok ==> keys.qkd.keys.len() == left.qkd.keys.len() + session.len()
        }),
    decreases session.len(),
{
    if session.len() > 0 {
        strict_requests_use_qkd_keys_only(keys, peer, session.drop_last());
        let left = wrap_all(
            keys,
            peer,
            SecurityLevel::StrictQkd.prefs(),
            session.drop_last(),
        ).0;
        crate::security::strict_requests_get_qkd_only(
            left.qkd.keys.len() > 0,
            left.pqc.keys.len() > 0,
        );
    }
}

/// Every session key that is sent uses up one transport key, of whatever grade, and
/// what the peer encrypts with stays untouched.
pub proof fn one_transport_key_for_each_session_key(
    keys: PeerKeys,
    peer: Seq<char>,
    prefs: Seq<KeyGrade>,
    session: Seq<SessionView>,
)
    requires
        wrap_all(keys, peer, prefs, session).1 is Ok,
    ensures
        ({
            let (left, sent) = wrap_all(keys, peer, prefs, session);
            &&& keys.enc_len() == left.enc_len() + session.len()
            &&& left.dec == keys.dec
            &&& sent->Ok_0.len() == session.len()
        }),
    decreases session.len(),
{
    if session.len() > 0 {
        one_transport_key_for_each_session_key(keys, peer, prefs, session.drop_last());
        let left = wrap_all(keys, peer, prefs, session.drop_last()).0;
        lemma_served_has_keys(prefs, left.qkd.keys.len() > 0, left.pqc.keys.len() > 0);
    }
}

/// A distribution that failed leaves no key behind at this node.
pub proof fn failed_distribution_leaves_no_key(
    pending: PendingKeys,
    ids: Seq<Seq<char>>,
    i: int,
    sae: Seq<char>,
    now_ns: u64,
)
    requires
        0 <= i < ids.len(),
    ensures
        !withdrawn(pending, ids).keys.dom().contains(ids[i]),
        !withdrawn(pending, ids).available(ids[i], sae, now_ns),
    decreases ids.len(),
{
    if i < ids.len() - 1 {
        failed_distribution_leaves_no_key(pending, ids.drop_last(), i, sae, now_ns);
    }
}

/// A distribution that failed costs nothing: when the application was charged, the
/// session keys were handed out, a node failed and the distribution was settled, it
/// has the tokens that it would have had by only waiting, and no key is left
/// behind at this node. The plan must be for other nodes, as nothing else fails, and
/// its cost for each of them the one that it was made with.
pub proof fn failed_distribution_costs_nothing(
    s: ServiceView,
    master: Seq<char>,
    plan: EncPlan,
    charged_ns: u64,
    session: Seq<SessionView>,
    sent_ns: u64,
    failures: Seq<ErrorView>,
    refunded_ns: u64,
    i: int,
    sae: Seq<char>,
    now_ns: u64,
)
    requires
        s.buckets.in_order(),
        plan.remote@.len() > 0,
        plan.cost_per_peer == capped(
            cost_of(plan.size_bytes as nat, plan.number as nat, 1, s.token_unit()) as int,
        ),
        s.buckets.of(master, charged_ns).tokens() >= s.plan_cost(plan),
        failures.len() > 0,
        0 <= i < session.len(),
    ensures
        ({
            let sent = distribution(
                s.charged(master, plan, charged_ns),
                master,
                sae_views(plan.local@),
                group_views(plan.remote@),
                plan.level,
                session,
                sent_ns,
            ).0;
            let after = sent.settled(
                master,
                plan,
                AdmissionStep::PerSae,
                ids_of(session),
                failures,
                refunded_ns,
            );
            &&& after.buckets == s.buckets.with(
                master,
                s.buckets.of(master, charged_ns).refilled(refunded_ns),
            )
            &&& !after.pending.keys.dom().contains(session[i].id)
            &&& !after.pending.available(session[i].id, sae, now_ns)
        }),
{
    let sent = distribution(
        s.charged(master, plan, charged_ns),
        master,
        sae_views(plan.local@),
        group_views(plan.remote@),
        plan.level,
        session,
        sent_ns,
    ).0;
    let cost = s.plan_cost(plan);
    cost_is_shared_out(
        plan.size_bytes as nat,
        plan.number as nat,
        plan.remote@.len(),
        s.token_unit(),
    );
    assert(refund_of(plan) == cost);
    late_refund_undoes_a_request(s.buckets, master, cost, charged_ns, refunded_ns);
    let after = sent.settled(
        master,
        plan,
        AdmissionStep::PerSae,
        ids_of(session),
        failures,
        refunded_ns,
    );
    assert(after.buckets =~= s.buckets.with(
        master,
        s.buckets.of(master, charged_ns).refilled(refunded_ns),
    ));
    assert(ids_of(session)[i] == session[i].id);
    failed_distribution_leaves_no_key(sent.pending, ids_of(session), i, sae, now_ns);
}

/// A delivery that is not stored touches no key: the transport keys, the session
/// keys, what is on its way and the acknowledgements stay as they are, and so does
/// what is known of the peers' runs.
pub proof fn refused_delivery_touches_no_key(
    s: ServiceView,
    app: Map<Seq<char>, Seq<char>>,
    payload: Seq<u8>,
    now_ns: u64,
)
    requires
        !(s.buffer_delivered(app, payload, now_ns).1 matches Ok(DeliveryView::Stored { .. })),
    ensures
        ({
            let after = s.buffer_delivered(app, payload, now_ns).0;
            &&& after.pool == s.pool
            &&& after.pending == s.pending
            &&& after.gen == s.gen
            &&& after.acks == s.acks
            &&& after.incarnations == s.incarnations
        }),
{
}

/// The names of headers that are read are told apart from all others.
proof fn lemma_names_differ()
    ensures
        ({
            &&& HDR_MSG_TYPE@.len() == 8
            &&& HDR_KEY_ID@.len() == 6
            &&& HDR_KEY_SIZE_BITS@.len() == 13
            &&& HDR_INCARNATION@.len() == 11
            &&& HDR_E2E_EPOCH@.len() == 9
            &&& HDR_E2E_CTR@.len() == 7
            &&& HDR_E2E_TAG@.len() == 7
            &&& HDR_ACK_ENDPOINT@.len() == 12 && HDR_TIMESTAMP_MS@.len() == 12
            &&& HDR_SAE_ORIGIN@.len() == 10 && HDR_KEY_DIGEST@.len() == 10 && HDR_REQUEST_ID@.len()
                == 10
            &&& HDR_ACK_ENDPOINT@ != HDR_TIMESTAMP_MS@
            &&& HDR_SAE_ORIGIN@ != HDR_KEY_DIGEST@ && HDR_SAE_ORIGIN@ != HDR_REQUEST_ID@
        }),
{
    reveal_strlit("msg_type");
    reveal_strlit("key_id");
    reveal_strlit("sae_origin");
    reveal_strlit("key_size_bits");
    reveal_strlit("key_digest");
    reveal_strlit("timestamp_ms");
    reveal_strlit("request_id");
    reveal_strlit("incarnation");
    reveal_strlit("ack_endpoint");
    reveal_strlit("e2e_epoch");
    reveal_strlit("e2e_ctr");
    reveal_strlit("e2e_tag");
    assert("ack_endpoint"@[0] != "timestamp_ms"@[0]);
    assert("sae_origin"@[0] != "key_digest"@[0]);
    assert("sae_origin"@[0] != "request_id"@[0]);
}

/// A transport key reaches the peer that it is made for: what one node makes, seals
/// and sends, the other opens and stores to decrypt with, under the same name and
/// byte for byte, behind what it has unless the sender was restarted. If the other
/// node has a way to acknowledge, the key is the last one in the queue of
/// acknowledgements or in the batch that is to be sent. The other node must hold the
/// secret of the epoch and not have seen the delivery before.
pub proof fn emitted_key_is_stored_by_the_peer(
    g: GeneratorView,
    a: E2eView,
    s: ServiceView,
    key_id: Seq<char>,
    bytes: Seq<u8>,
    unix_ms: u64,
    now_ns: u64,
)
    requires
        g.my_id == a.my_id,
        bytes.len() == g.key_size_bytes,
        a.state_of(s.e2e.my_id).counter < u64::MAX,
        parsed_number(g.incarnation, 16, u64::MAX as nat) is Some,
        ({
            let b = s.e2e;
            let header = emission_header(g, key_id, bytes, unix_ms);
            let (sealed, _, h) = a.sealed(b.my_id, key_id, header, bytes);
            let epoch = a.state_of(b.my_id).send_epoch->0;
            let session = parsed_number(g.incarnation, 16, u64::MAX as nat)->0 as u64;
            &&& sealed is Ok
            &&& sealed->Ok_0.len() == bytes.len()
            &&& a.genuine(b.my_id, key_id, h, sealed->Ok_0, bytes)
            &&& b.peers.dom().contains(a.my_id)
            &&& b.peers[a.my_id].secret(epoch) == a.state_of(b.my_id).secret(epoch)
            &&& b.peers[a.my_id].replay.step(
                session,
                (a.state_of(b.my_id).counter + 1) as u64,
                now_ns,
            ).0 is Ok
        }),
    ensures
        ({
            let b = s.e2e;
            let header = emission_header(g, key_id, bytes, unix_ms);
            let (sealed, _, h) = a.sealed(b.my_id, key_id, header, bytes);
            let (after, r) = s.buffer_delivered(h, sealed->Ok_0, now_ns);
            let noted = s.incarnation_noted(a.my_id, Some(g.incarnation), now_ns);
            let dec = noted.pool.of(a.my_id).dec;
            &&& header_text(h, HDR_MSG_TYPE@) == Some(MSG_TYPE_DKMS_BUFFER@)
            &&& r matches Ok(DeliveryView::Stored { .. })
            &&& !dec.full() ==> after.pool.of(a.my_id).dec.keys == dec.keys.push(
                KeyView { id: key_id, bytes },
            )
            &&& g.ack_endpoint matches Some(ep) ==> after.flow.endpoints.contains_pair(a.my_id, ep)
            &&& s.acks is Some && (g.ack_endpoint is Some || s.acks->0.has_route(s.peers, a.my_id))
                ==> match r->Ok_0->batch {
                Some(batch) => batch.len() > 0 && batch.last() == key_id,
                None => {
                    let queue = after.acks->0.of(a.my_id);
                    queue.len() > 0 && queue.last() == key_id
                },
            }
        }),
{
    lemma_names_differ();
    let b = s.e2e;
    let header = emission_header(g, key_id, bytes, unix_ms);
    let (sealed, _, h) = a.sealed(b.my_id, key_id, header, bytes);
    assert(header.dom().contains(HDR_INCARNATION@) && header[HDR_INCARNATION@] == g.incarnation);
    what_is_sealed_opens(a, b, key_id, header, bytes, now_ns);
    assert(h.dom().contains(HDR_KEY_ID@) && h[HDR_KEY_ID@] == key_id);
    assert(h.dom().contains(HDR_SAE_ORIGIN@) && h[HDR_SAE_ORIGIN@] == a.my_id);
    assert(h.dom().contains(HDR_MSG_TYPE@) && h[HDR_MSG_TYPE@] == MSG_TYPE_DKMS_BUFFER@);
    assert(h.dom().contains(HDR_INCARNATION@) && h[HDR_INCARNATION@] == g.incarnation);
    let bits = (g.key_size_bytes * 8) as nat;
    assert(h.dom().contains(HDR_KEY_SIZE_BITS@) && h[HDR_KEY_SIZE_BITS@] == decimal(bits));
    decimal_reads_back(bits);
    assert(header_text(h, HDR_ACK_ENDPOINT@) == g.ack_endpoint);
    assert(malformed(h, bytes.len()) is None);
    let opened = b.opened(a.my_id, h, key_id, sealed->Ok_0, now_ns);
    assert(opened.0 == Ok::<Seq<u8>, E2eErrorView>(bytes));
    let s1 = ServiceView { e2e: opened.1, ..s };
    let noted = s1.incarnation_noted(a.my_id, Some(g.incarnation), now_ns);
    assert(noted.pool == s.incarnation_noted(a.my_id, Some(g.incarnation), now_ns).pool);
}

} // verus!
