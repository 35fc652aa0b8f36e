//! What holds of the layer as a whole.
use crate::codec::{base64_bytes, hex_bytes};
use crate::crypto::aead::TAG_LEN;
use crate::crypto::frame_mac::frame_is_admitted_once;
use crate::crypto::pqc::{level_named, ml_kem_decapsulated};
use crate::crypto::primitives::gcm_opened;
use crate::e2e::aad::{aad_binds_sender_receiver_and_header, aad_of, pairs_fit, untagged};
use crate::e2e::peer::{agreement_is_stored, find_secret, without_epoch, PeerView};
use crate::e2e::{
    derived, seal_header, E2eErrorView, E2eView, HDR_E2E_CTR, HDR_E2E_EPOCH, HDR_E2E_TAG,
    PENDING_ESK_TTL_NS,
};
use crate::orr::HDR_INCARNATION;
use crate::table::sorted_pairs;
use crate::text::{decimal, decimal_reads_back, lemma_text_order, parsed_number, text_less};
use vstd::prelude::*;
use vstd::utf8::*;

verus! {

proof fn lemma_header_names()
    ensures
        HDR_E2E_EPOCH@ != HDR_E2E_CTR@,
        HDR_E2E_EPOCH@ != HDR_E2E_TAG@,
        HDR_E2E_CTR@ != HDR_E2E_TAG@,
        HDR_INCARNATION@ != HDR_E2E_EPOCH@,
        HDR_INCARNATION@ != HDR_E2E_CTR@,
        HDR_INCARNATION@ != HDR_E2E_TAG@,
{
    reveal_strlit("e2e_epoch");
    reveal_strlit("e2e_ctr");
    reveal_strlit("e2e_tag");
    reveal_strlit("incarnation");
    assert("e2e_ctr"@[4] != "e2e_tag"@[4]);
    assert("e2e_epoch"@.len() != "e2e_ctr"@.len());
    assert("e2e_epoch"@.len() != "e2e_tag"@.len());
    assert("incarnation"@.len() != "e2e_ctr"@.len());
    assert("incarnation"@.len() != "e2e_epoch"@.len());
}

/// The header that sealing leaves reads back: the epoch that was sealed with,
/// the next counter, the tag, and the sender's incarnation.
pub proof fn sealed_header_reads_back(
    a: E2eView,
    peer: Seq<char>,
    key_id: Seq<char>,
    header: Map<Seq<char>, Seq<char>>,
    plaintext: Seq<u8>,
)
    requires
        a.state_of(peer).counter < u64::MAX,
        a.sealed(peer, key_id, header, plaintext).0 is Ok,
        header.dom().contains(HDR_INCARNATION@),
        parsed_number(header[HDR_INCARNATION@], 16, u64::MAX as nat) is Some,
        ({
            let tag = hex_bytes(a.sealed(peer, key_id, header, plaintext).2[HDR_E2E_TAG@]);
            tag is Some && tag->0.len() == TAG_LEN
        }),
    ensures
        ({
            let h = a.sealed(peer, key_id, header, plaintext).2;
            let f = seal_header(h);
            &&& f is Ok
            &&& f->Ok_0.epoch == a.state_of(peer).send_epoch->0
            &&& f->Ok_0.counter == a.state_of(peer).counter + 1
            &&& f->Ok_0.session == parsed_number(
                header[HDR_INCARNATION@],
                16,
                u64::MAX as nat,
            )->0
            &&& f->Ok_0.tag == hex_bytes(h[HDR_E2E_TAG@])->0
        }),
{
    lemma_header_names();
    let st = a.state_of(peer);
    decimal_reads_back(st.send_epoch->0 as nat);
    decimal_reads_back((st.counter + 1) as nat);
    let h = a.sealed(peer, key_id, header, plaintext).2;
    assert(h[HDR_E2E_EPOCH@] == decimal(st.send_epoch->0 as nat));
    assert(h[HDR_E2E_CTR@] == decimal((st.counter + 1) as nat));
    assert(h[HDR_INCARNATION@] == header[HDR_INCARNATION@]);
    assert(h.dom().contains(HDR_INCARNATION@));
}

/// What one node seals for another, the other opens: if it holds the secret of
/// the epoch and has not seen the payload, it gets the plaintext back.
pub proof fn what_is_sealed_opens(
    a: E2eView,
    b: E2eView,
    key_id: Seq<char>,
    header: Map<Seq<char>, Seq<char>>,
    plaintext: Seq<u8>,
    now_ns: u64,
)
    requires
        a.state_of(b.my_id).counter < u64::MAX,
        a.sealed(b.my_id, key_id, header, plaintext).0 is Ok,
        header.dom().contains(HDR_INCARNATION@),
        parsed_number(header[HDR_INCARNATION@], 16, u64::MAX as nat) is Some,
        a.genuine(
            b.my_id,
            key_id,
            a.sealed(b.my_id, key_id, header, plaintext).2,
            a.sealed(b.my_id, key_id, header, plaintext).0->Ok_0,
            plaintext,
        ),
        b.peers.dom().contains(a.my_id),
        b.peers[a.my_id].secret(a.state_of(b.my_id).send_epoch->0) == a.state_of(b.my_id).secret(
            a.state_of(b.my_id).send_epoch->0,
        ),
        b.peers[a.my_id].replay.step(
            parsed_number(header[HDR_INCARNATION@], 16, u64::MAX as nat)->0 as u64,
            (a.state_of(b.my_id).counter + 1) as u64,
            now_ns,
        ).0 is Ok,
    ensures
        ({
            let (r, _, h) = a.sealed(b.my_id, key_id, header, plaintext);
            b.opened(a.my_id, h, key_id, r->Ok_0, now_ns).0 == Ok::<Seq<u8>, E2eErrorView>(
                plaintext,
            )
        }),
{
    sealed_header_reads_back(a, b.my_id, key_id, header, plaintext);
}

/// A payload that is not genuine, or that was sealed with an epoch that is not
/// held, changes nothing.
pub proof fn refused_payload_changes_nothing(
    b: E2eView,
    source: Seq<char>,
    header: Map<Seq<char>, Seq<char>>,
    key_id: Seq<char>,
    payload: Seq<u8>,
    now_ns: u64,
)
    requires
        b.unsealed(source, header, key_id, payload) is Err,
    ensures
        b.opened(source, header, key_id, payload, now_ns).0 == b.unsealed(
            source,
            header,
            key_id,
            payload,
        ),
        b.opened(source, header, key_id, payload, now_ns).1 == b,
{
}

/// What was tampered with is refused and changes nothing, so that the genuine
/// payload still opens, provided that AES-GCM refuses it. Another header field than
/// the tag makes other authenticated data.
pub proof fn tampered_payload_is_refused(
    b: E2eView,
    source: Seq<char>,
    header: Map<Seq<char>, Seq<char>>,
    key_id: Seq<char>,
    payload: Seq<u8>,
    altered_header: Map<Seq<char>, Seq<char>>,
    altered_key_id: Seq<char>,
    altered_payload: Seq<u8>,
    now_ns: u64,
    later_ns: u64,
)
    requires
        seal_header(altered_header) is Ok,
        b.peers.dom().contains(source),
        b.peers[source].secret(seal_header(altered_header)->Ok_0.epoch) is Some,
        ({
            let f = seal_header(altered_header)->Ok_0;
            let (key, nonce) = derived(b.peers[source].secret(f.epoch)->0, altered_key_id);
            let aad = aad_of(source, b.my_id, altered_header);
            gcm_opened(key, nonce, altered_payload, aad, f.tag) is None
        }),
        encode_utf8(source).len() <= u32::MAX,
        encode_utf8(b.my_id).len() <= u32::MAX,
        pairs_fit(sorted_pairs(header)),
        pairs_fit(sorted_pairs(altered_header)),
    ensures
        ({
            let (r, after) = b.opened(
                source,
                altered_header,
                altered_key_id,
                altered_payload,
                now_ns,
            );
            &&& r == Err::<Seq<u8>, E2eErrorView>(E2eErrorView::BadTag)
            &&& after == b
            &&& after.opened(source, header, key_id, payload, later_ns) == b.opened(
                source,
                header,
                key_id,
                payload,
                later_ns,
            )
        }),
        untagged(sorted_pairs(altered_header)) != untagged(sorted_pairs(header)) ==> aad_of(
            source,
            b.my_id,
            altered_header,
        ) != aad_of(source, b.my_id, header),
{
    if aad_of(source, b.my_id, altered_header) == aad_of(source, b.my_id, header) {
        aad_binds_sender_receiver_and_header(
            source,
            b.my_id,
            altered_header,
            source,
            b.my_id,
            header,
        );
    }
}

/// One delivery: source, header, key id, payload and time of arrival.
pub struct Delivery {
    pub source: Seq<char>,
    pub header: Map<Seq<char>, Seq<char>>,
    pub key_id: Seq<char>,
    pub payload: Seq<u8>,
    pub now_ns: u64,
}

/// The layer after a series of deliveries.
pub open spec fn run(b: E2eView, deliveries: Seq<Delivery>) -> E2eView
    decreases deliveries.len(),
{
    if deliveries.len() == 0 {
        b
    } else {
        let d = deliveries[0];
        run(
            b.opened(d.source, d.header, d.key_id, d.payload, d.now_ns).1,
            deliveries.drop_first(),
        )
    }
}

/// The frames that a series of deliveries shows to the window of `source`.
pub open spec fn frames(b: E2eView, source: Seq<char>, deliveries: Seq<Delivery>) -> Seq<
    (u64, u64, u64),
>
    decreases deliveries.len(),
{
    if deliveries.len() == 0 {
        Seq::empty()
    } else {
        let d = deliveries[0];
        let rest = frames(
            b.opened(d.source, d.header, d.key_id, d.payload, d.now_ns).1,
            source,
            deliveries.drop_first(),
        );
        if d.source == source && b.unsealed(d.source, d.header, d.key_id, d.payload) is Ok {
            let f = seal_header(d.header)->Ok_0;
            seq![(f.session, f.counter, d.now_ns)] + rest
        } else {
            rest
        }
    }
}

proof fn lemma_run(b: E2eView, source: Seq<char>, deliveries: Seq<Delivery>)
    requires
        b.peers.dom().contains(source),
    ensures
        ({
            let c = run(b, deliveries);
            &&& c.peers.dom().contains(source)
            &&& c.my_id == b.my_id
            &&& c.peers[source] == (PeerView {
                replay: b.peers[source].replay.run(frames(b, source, deliveries)),
                ..b.peers[source]
            })
        }),
    decreases deliveries.len(),
{
    if deliveries.len() > 0 {
        let d = deliveries[0];
        let c = b.opened(d.source, d.header, d.key_id, d.payload, d.now_ns).1;
        lemma_run(c, source, deliveries.drop_first());
        if d.source == source && b.unsealed(d.source, d.header, d.key_id, d.payload) is Ok {
            let f = seal_header(d.header)->Ok_0;
            let rest = frames(c, source, deliveries.drop_first());
            let all = seq![(f.session, f.counter, d.now_ns)] + rest;
            assert(all.drop_first() =~= rest);
            assert(all[0] == (f.session, f.counter, d.now_ns));
        }
    }
}

/// A payload opens once: delivered again it is refused as a replay, whatever is
/// delivered in between, unless the sender's session changed so often that the one
/// of the payload is forgotten.
pub proof fn payload_opens_once(
    b: E2eView,
    source: Seq<char>,
    header: Map<Seq<char>, Seq<char>>,
    key_id: Seq<char>,
    payload: Seq<u8>,
    now_ns: u64,
    between: Seq<Delivery>,
    later_ns: u64,
)
    requires
        b.wf(),
        b.opened(source, header, key_id, payload, now_ns).0 is Ok,
        ({
            let b1 = b.opened(source, header, key_id, payload, now_ns).1;
            let window = b1.peers[source].replay;
            window.changes(frames(b1, source, between)) <= window.kept_for(
                seal_header(header)->Ok_0.session,
            )
        }),
    ensures
        ({
            let c = run(b.opened(source, header, key_id, payload, now_ns).1, between);
            let r = c.opened(source, header, key_id, payload, later_ns).0;
            r is Err && r->Err_0 is Replay
        }),
{
    let f = seal_header(header)->Ok_0;
    let b1 = b.opened(source, header, key_id, payload, now_ns).1;
    lemma_run(b1, source, between);
    let fs = frames(b1, source, between);
    frame_is_admitted_once(
        b.peers[source].replay,
        f.session,
        f.counter,
        now_ns,
        fs,
        later_ns,
    );
}

/// A payload that was opened does not open again in whatever the layer has become,
/// by agreements too, if the window of its sender has only been shown frames and
/// still remembers the session of the payload.
pub proof fn opened_payload_does_not_open_again(
    b: E2eView,
    source: Seq<char>,
    header: Map<Seq<char>, Seq<char>>,
    key_id: Seq<char>,
    payload: Seq<u8>,
    now_ns: u64,
    shown: Seq<(u64, u64, u64)>,
    c: E2eView,
    later_ns: u64,
)
    requires
        b.wf(),
        b.opened(source, header, key_id, payload, now_ns).0 is Ok,
        ({
            let window = b.opened(source, header, key_id, payload, now_ns).1.peers[source].replay;
            &&& window.changes(shown) <= window.kept_for(seal_header(header)->Ok_0.session)
            &&& c.peers.dom().contains(source) ==> c.peers[source].replay == window.run(shown)
        }),
    ensures
        c.opened(source, header, key_id, payload, later_ns).0 is Err,
{
    let f = seal_header(header)->Ok_0;
    frame_is_admitted_once(
        b.peers[source].replay,
        f.session,
        f.counter,
        now_ns,
        shown,
        later_ns,
    );
}

/// An agreement leaves both sides with one secret under one epoch, which both
/// seal with from then on, provided that decapsulation recovers what was
/// encapsulated.
pub proof fn agreement_gives_both_sides_one_secret(
    a: E2eView,
    b: E2eView,
    esk: Seq<u8>,
    asked_ns: u64,
    epoch: u32,
    ct: Seq<char>,
    pair: (Seq<u8>, Seq<u8>),
    answered_ns: u64,
    after_b: E2eView,
    done_ns: u64,
)
    requires
        a.wf(),
        b.wf(),
        a.suite == b.suite,
        level_named(a.suite) is Some,
        esk.len() == level_named(a.suite)->0.secret_key_len(),
        epoch != 0,
        b.answered(a.my_id, epoch, ct, pair, answered_ns, after_b),
        pair.0.len() == level_named(a.suite)->0.ciphertext_len(),
        ml_kem_decapsulated(level_named(a.suite)->0, esk, pair.0) == pair.1,
        done_ns - asked_ns <= PENDING_ESK_TTL_NS,
    ensures
        ({
            let (r, after_a) = a.asking(b.my_id, esk, asked_ns).completed(
                b.my_id,
                b.suite,
                epoch,
                ct,
                done_ns,
            );
            &&& r == Ok::<u32, E2eErrorView>(epoch)
            &&& after_a.state_of(b.my_id).secret(epoch) == Some(pair.1)
            &&& after_b.state_of(a.my_id).secret(epoch) == Some(pair.1)
            &&& after_a.state_of(b.my_id).send_epoch == Some(epoch)
            &&& after_b.state_of(a.my_id).send_epoch == Some(epoch)
        }),
{
    let asking = a.asking(b.my_id, esk, asked_ns);
    let st = asking.state_of(b.my_id);
    let dropped = PeerView { pending_esk: None, ..st };
    fresh_peer_is_in_order(a.window);
    fresh_peer_is_in_order(b.window);
    assert(a.state_of(b.my_id).wf());
    assert(b.state_of(a.my_id).wf());
    assert(dropped.wf());
    agreement_is_stored(dropped, epoch, pair.1, a.keep, done_ns);
    agreement_is_stored(b.state_of(a.my_id), epoch, pair.1, b.keep, answered_ns);
}

/// Nothing wrong is known of a peer that was never heard of.
pub proof fn fresh_peer_is_in_order(window: u64)
    ensures
        PeerView::fresh(window).wf(),
{
}

/// Earlier secrets stay for payloads that are still on their way: after an agreement
/// the latest of them, as many as the history allows besides the new one, open what
/// was sealed with them as before.
pub proof fn earlier_epochs_still_open(
    p: PeerView,
    epoch: u32,
    secret: Seq<u8>,
    keep: usize,
    now_ns: u64,
    i: int,
)
    requires
        p.wf(),
        secret.len() == 32,
        0 <= i < p.epochs.len(),
        p.epochs[i].0 != epoch,
        p.epochs.len() - i < keep,
    ensures
        ({
            let q = p.stored(epoch, secret, keep, now_ns);
            &&& q.secret(p.epochs[i].0) == Some(p.epochs[i].1)
            &&& q.secret(epoch) == Some(secret)
            &&& q.send_epoch == Some(epoch)
            &&& q.established_at == Some(now_ns)
            &&& q.counter == p.counter
            &&& q.replay == p.replay
        }),
{
    agreement_is_stored(p, epoch, secret, keep, now_ns);
    let rest = without_epoch(p.epochs, epoch);
    lemma_without_keeps(p.epochs, epoch, i);
    let a = choose|a: int|
        0 <= a < rest.len() && #[trigger] rest[a] == p.epochs[i] && rest.len() - a <= p.epochs.len()
            - i;
    let all = rest.push((epoch, secret));
    let q = p.stored(epoch, secret, keep, now_ns);
    let cut = all.len() - q.epochs.len();
    assert(all[a] == p.epochs[i]);
    assert(q.epochs[a - cut] == p.epochs[i]);
    lemma_secret_at(q.epochs, a - cut);
    assert(all[all.len() - 1] == (epoch, secret));
    assert(q.epochs[q.epochs.len() - 1] == (epoch, secret));
    lemma_secret_at(q.epochs, q.epochs.len() - 1);
}

proof fn lemma_without_keeps(epochs: Seq<(u32, Seq<u8>)>, epoch: u32, i: int)
    requires
        0 <= i < epochs.len(),
        epochs[i].0 != epoch,
    ensures
        exists|a: int|
            0 <= a < without_epoch(epochs, epoch).len() && #[trigger] without_epoch(epochs, epoch)[a]
                == epochs[i] && without_epoch(epochs, epoch).len() - a <= epochs.len() - i,
    decreases epochs.len(),
{
    let front = epochs.drop_last();
    let w = without_epoch(epochs, epoch);
    let wf = without_epoch(front, epoch);
    if i == epochs.len() - 1 {
        assert(w[w.len() - 1] == epochs[i]);
    } else {
        lemma_without_keeps(front, epoch, i);
        let a = choose|a: int|
            0 <= a < wf.len() && #[trigger] wf[a] == front[i] && wf.len() - a <= front.len() - i;
        assert(w[a] == epochs[i]);
    }
}

proof fn lemma_secret_at(epochs: Seq<(u32, Seq<u8>)>, i: int)
    requires
        0 <= i < epochs.len(),
        forall|a: int, b: int|
            0 <= a < b < epochs.len() ==> #[trigger] epochs[a].0 != #[trigger] epochs[b].0,
    ensures
        find_secret(epochs, epochs[i].0) == Some(epochs[i].1),
    decreases epochs.len(),
{
    if i > 0 {
        let rest = epochs.drop_first();
        assert forall|a: int, b: int| 0 <= a < b < rest.len() implies #[trigger] rest[a].0
            != #[trigger] rest[b].0 by {
            assert(epochs[a + 1].0 != epochs[b + 1].0);
        }
        assert(epochs[0].0 != epochs[i].0);
        assert(rest[i - 1] == epochs[i]);
        lemma_secret_at(rest, i - 1);
    }
}

/// Of a pair of nodes one renews the secret, when it is as old as is configured, a
/// second at least.
pub proof fn one_side_renews_the_secret(a: E2eView, b: E2eView, now_ns: u64, later_ns: u64)
    ensures
        !(a.due(b.my_id, now_ns) && b.due(a.my_id, later_ns)),
        a.due(b.my_id, now_ns) <==> {
            &&& a.peers.dom().contains(b.my_id)
            &&& text_less(a.my_id, b.my_id)
            &&& a.peers[b.my_id].established_at is Some
            &&& now_ns >= a.peers[b.my_id].established_at->0 + 1_000_000_000
            &&& now_ns >= a.peers[b.my_id].established_at->0 + a.rekey_secs * 1_000_000_000
        },
{
    lemma_text_order(a.my_id, b.my_id);
}

/// Agreements with a peer are tried one at a time, two seconds apart at least, and
/// one that is under way keeps only its own peer from being asked.
pub proof fn agreements_are_tried_one_at_a_time(
    a: E2eView,
    peer: Seq<char>,
    now_ns: u64,
    later_ns: u64,
    other: Seq<char>,
)
    requires
        other != peer,
    ensures
        !a.peers.dom().contains(peer) ==> a.may_agree(peer, now_ns),
        a.peers.dom().contains(peer) ==> (a.may_agree(peer, now_ns) <==> !a.peers[peer].inflight && (
        a.peers[peer].last_attempt is None || now_ns >= a.peers[peer].last_attempt->0
            + 2_000_000_000)),
        !a.agreement_tried(peer, now_ns).may_agree(peer, later_ns) || !a.may_agree(peer, now_ns),
        a.agreement_tried(peer, now_ns).may_agree(other, later_ns) == a.may_agree(other, later_ns),
        a.may_agree(peer, now_ns) ==> a.agreement_tried(peer, now_ns).state_of(peer).last_attempt
            == Some(now_ns),
        a.agreement_tried(peer, now_ns).state_of(peer).epochs == a.state_of(peer).epochs,
{
}

/// An answer counts only for what was asked: it must be of this node's suite, name an
/// epoch, and come within half a minute. Then its epoch is the one to seal with. Else
/// the secrets stay as they are, and an answer is never taken twice.
pub proof fn answers_count_only_for_what_was_asked(
    a: E2eView,
    peer: Seq<char>,
    suite: Seq<char>,
    epoch: u32,
    ct: Seq<char>,
    now_ns: u64,
    other: Seq<char>,
    later_ns: u64,
)
    requires
        other != peer,
    ensures
        ({
            let (r, after) = a.completed(peer, suite, epoch, ct, now_ns);
            let st = a.state_of(peer);
            let q = after.state_of(peer);
            &&& r matches Ok(e) ==> {
                &&& e == epoch && epoch != 0
                &&& suite == a.suite
                &&& st.pending_esk is Some
                &&& now_ns - (st.pending_esk->0).1 <= 30_000_000_000
                &&& q.send_epoch == Some(epoch)
                &&& q.established_at == Some(now_ns)
                &&& q.pending_esk is None
                &&& after.completed(peer, suite, epoch, ct, later_ns).0 is Err
            }
            &&& r is Err ==> q.epochs == st.epochs && q.send_epoch == st.send_epoch
                && q.established_at == st.established_at
            &&& q.counter == st.counter && q.replay == st.replay
            &&& after.state_of(other) == a.state_of(other)
        }),
{
}

/// Each payload that is sealed for a peer gets the next number of that peer's, and
/// none is sealed without an epoch. Nothing else of the layer changes.
pub proof fn sealing_numbers_payloads(
    a: E2eView,
    peer: Seq<char>,
    key_id: Seq<char>,
    header: Map<Seq<char>, Seq<char>>,
    plaintext: Seq<u8>,
    other: Seq<char>,
)
    requires
        other != peer,
        a.state_of(peer).counter < u64::MAX,
    ensures
        ({
            let (r, after, h) = a.sealed(peer, key_id, header, plaintext);
            let st = a.state_of(peer);
            &&& st.send_epoch is None ==> r == Err::<Seq<u8>, E2eErrorView>(
                E2eErrorView::NoEpoch { peer },
            ) && h == header
            &&& r is Ok ==> {
                &&& st.send_epoch is Some
                &&& after.state_of(peer).counter == st.counter + 1
                &&& h.contains_pair(HDR_E2E_EPOCH@, decimal(st.send_epoch->0 as nat))
                &&& h.contains_pair(HDR_E2E_CTR@, decimal((st.counter + 1) as nat))
                &&& h.dom().contains(HDR_E2E_TAG@)
                &&& forall|name: Seq<char>|
                    name != HDR_E2E_EPOCH@ && name != HDR_E2E_CTR@ && name != HDR_E2E_TAG@ ==> (
                    #[trigger] h.dom().contains(name) == header.dom().contains(name)) && h[name]
                        == header[name]
            }
            &&& after.state_of(peer).counter >= st.counter
            &&& after.state_of(peer).epochs == st.epochs
            &&& after.state_of(peer).send_epoch == st.send_epoch
            &&& after.state_of(peer).replay == st.replay
            &&& after.state_of(other) == a.state_of(other)
        }),
{
    lemma_header_names();
}

/// An agreement that a peer asks for is refused unless it is of this node's suite,
/// the suite is known, and the key can be read and has the suite's length.
pub proof fn agreements_are_refused_for_a_reason(a: E2eView, suite: Seq<char>, epk: Seq<char>)
    ensures
        a.refusal(suite, epk) is None <==> {
            &&& suite == a.suite
            &&& level_named(suite) is Some
            &&& base64_bytes(epk) is Ok
            &&& base64_bytes(epk)->Ok_0.len() == level_named(suite)->0.public_key_len()
        },
{
}

/// A payload is refused for what is wrong with it: a header that lacks a field, an
/// epoch that is not held with its sender, or a tag that does not fit.
pub proof fn payloads_are_refused_for_a_reason(
    b: E2eView,
    source: Seq<char>,
    header: Map<Seq<char>, Seq<char>>,
    key_id: Seq<char>,
    payload: Seq<u8>,
    now_ns: u64,
)
    ensures
        ({
            let r = b.opened(source, header, key_id, payload, now_ns).0;
            let epoch = parsed_number(header[HDR_E2E_EPOCH@], 10, u32::MAX as nat);
            let held = b.peers.dom().contains(source) && b.peers[source].secret(epoch->0 as u32) is Some;
            let complete = {
                &&& header.dom().contains(HDR_E2E_EPOCH@) && epoch is Some
                &&& header.dom().contains(HDR_E2E_CTR@) && parsed_number(
                    header[HDR_E2E_CTR@],
                    10,
                    u64::MAX as nat,
                ) is Some
                &&& header.dom().contains(HDR_E2E_TAG@) && hex_bytes(header[HDR_E2E_TAG@]) is Some
                    && hex_bytes(header[HDR_E2E_TAG@])->0.len() == 16
                &&& header.dom().contains(HDR_INCARNATION@) && parsed_number(
                    header[HDR_INCARNATION@],
                    16,
                    u64::MAX as nat,
                ) is Some
            };
            &&& !complete <==> r is Err && r->Err_0 is Header
            &&& complete && !held <==> r == Err::<Seq<u8>, E2eErrorView>(
                E2eErrorView::UnknownEpoch { peer: source, epoch: epoch->0 as u32 },
            )
            &&& complete && held ==> r is Ok || (r->Err_0 is BadTag || r->Err_0 is Replay)
        }),
{
}

} // verus!
