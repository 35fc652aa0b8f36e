//! What holds of the keys of a peer, from the word on its path to its buffers.
use crate::ack_pending::{all_live, bucket_of, sweep_gives_up_only_what_is_out_of_time};
use crate::buffers::{KeyView, PoolView};
use crate::flow_stats::{FlowView, PeerFlow};
use crate::generator::{
    diagnosis, emission_header, endpoint_counted, expiry_counted, failures, first_failure, level_of,
    paths, Cause, CommodityLevel, GeneratorView, KeyFlow,
};
use crate::orr::{
    digest_text, HDR_ACK_ENDPOINT, HDR_INCARNATION, HDR_KEY_DIGEST, HDR_KEY_ID, HDR_KEY_SIZE_BITS,
    HDR_MSG_TYPE, HDR_REQUEST_ID, HDR_SAE_ORIGIN, HDR_TIMESTAMP_MS, MSG_TYPE_DKMS_BUFFER,
};
use crate::security::KeyGrade;
use crate::text::decimal;
use vstd::prelude::*;

verus! {

/// The last word on a peer stands.
proof fn lemma_last_word(list: Seq<(Seq<char>, bool)>, i: int)
    requires
        0 <= i < list.len(),
        forall|j: int| i < j < list.len() ==> (#[trigger] list[j]).0 != list[i].0,
    ensures
        paths(list).dom().contains(list[i].0),
        paths(list)[list[i].0] == list[i].1,
    decreases list.len(),
{
    if i < list.len() - 1 {
        let init = list.drop_last();
        assert forall|j: int| i < j < init.len() implies (#[trigger] init[j]).0 != init[i].0 by {
            assert(list[j].0 != list[i].0);
        }
        lemma_last_word(init, i);
        assert(list[list.len() - 1].0 != list[i].0);
    }
}

proof fn lemma_no_word(list: Seq<(Seq<char>, bool)>, peer: Seq<char>)
    requires
        forall|j: int| 0 <= j < list.len() ==> (#[trigger] list[j]).0 != peer,
    ensures
        !paths(list).dom().contains(peer),
    decreases list.len(),
{
    if list.len() > 0 {
        let init = list.drop_last();
        assert forall|j: int| 0 <= j < init.len() implies (#[trigger] init[j]).0 != peer by {
            assert(list[j].0 != peer);
        }
        lemma_no_word(init, peer);
        assert(list[list.len() - 1].0 != peer);
    }
}

/// A key takes the grade of the path that it is sent on: once the paths are taken
/// over, a key that is sent to a peer whose last word is a QKD path ends up, when it
/// is acknowledged, as the newest of the peer's QKD keys and touches no other key;
/// where the last word is that there is no such path, as the newest of the PQC keys.
pub proof fn key_takes_the_grade_of_the_last_word(
    f: KeyFlow,
    list: Seq<(Seq<char>, bool)>,
    i: int,
    key_id: Seq<char>,
    bytes: Seq<u8>,
    now_ns: u64,
)
    requires
        0 <= i < list.len(),
        forall|j: int| i < j < list.len() ==> (#[trigger] list[j]).0 != list[i].0,
        f.pool.of(list[i].0).qkd.limit matches Some(n) ==> f.pool.of(list[i].0).qkd.keys.len() < n,
        f.pool.of(list[i].0).pqc.limit matches Some(n) ==> f.pool.of(list[i].0).pqc.keys.len() < n,
    ensures
        ({
            let (peer, has_path) = list[i];
            let gen = GeneratorView { qkd: paths(list), ..f.gen };
            let sent = KeyFlow { gen: gen.sent(peer, key_id, bytes, now_ns), ..f };
            let (after, moved) = sent.acknowledged(peer, key_id);
            let key = KeyView { id: key_id, bytes };
            let had = f.pool.of(peer);
            let has = after.pool.of(peer);
            &&& moved
            &&& has_path ==> gen.grade(peer) == KeyGrade::Qkd && has.qkd.keys == had.qkd.keys.push(key)
                && has.pqc == had.pqc
            &&& !has_path ==> gen.grade(peer) == KeyGrade::Pqc && has.pqc.keys
                == had.pqc.keys.push(key) && has.qkd == had.qkd
            &&& has.dec == had.dec
        }),
{
    lemma_last_word(list, i);
}

/// A key for a peer of whose path nothing is known counts as a QKD key.
pub proof fn key_is_qkd_where_nothing_is_known(
    f: KeyFlow,
    list: Seq<(Seq<char>, bool)>,
    peer: Seq<char>,
    key_id: Seq<char>,
    bytes: Seq<u8>,
    now_ns: u64,
)
    requires
        forall|j: int| 0 <= j < list.len() ==> (#[trigger] list[j]).0 != peer,
        f.pool.of(peer).qkd.limit matches Some(n) ==> f.pool.of(peer).qkd.keys.len() < n,
    ensures
        ({
            let gen = GeneratorView { qkd: paths(list), ..f.gen };
            let sent = KeyFlow { gen: gen.sent(peer, key_id, bytes, now_ns), ..f };
            let (after, moved) = sent.acknowledged(peer, key_id);
            &&& moved
            &&& gen.grade(peer) == KeyGrade::Qkd
            &&& after.pool.of(peer).qkd.keys == f.pool.of(peer).qkd.keys.push(
                KeyView { id: key_id, bytes },
            )
            &&& after.pool.of(peer).pqc == f.pool.of(peer).pqc
            &&& after.pool.of(peer).dec == f.pool.of(peer).dec
        }),
{
    lemma_no_word(list, peer);
}

/// Keys are due for a peer exactly while those of both grades that it has and those
/// that are on their way are, together, fewer than it should have.
pub proof fn stock_and_pending_keys_count(gen: GeneratorView, pool: PoolView, peer: Seq<char>)
    ensures
        gen.has_room(pool, peer) <==> pool.of(peer).qkd.keys.len() + pool.of(peer).pqc.keys.len()
            + bucket_of(gen.pending, peer).dom().len() < gen.capacity,
        pool.of(peer).qkd.keys.len() + pool.of(peer).pqc.keys.len() >= gen.capacity
            ==> !gen.has_room(pool, peer),
        bucket_of(gen.pending, peer).dom().len() >= gen.capacity ==> !gen.has_room(pool, peer),
{
}

/// A key that is sent takes up room: a peer that lacked one key lacks none.
pub proof fn sent_key_takes_up_room(
    gen: GeneratorView,
    pool: PoolView,
    peer: Seq<char>,
    key_id: Seq<char>,
    bytes: Seq<u8>,
    now_ns: u64,
)
    requires
        bucket_of(gen.pending, peer).dom().finite(),
        !bucket_of(gen.pending, peer).dom().contains(key_id),
    ensures
        ({
            let after = gen.sent(peer, key_id, bytes, now_ns);
            &&& bucket_of(after.pending, peer).dom().len() == bucket_of(gen.pending, peer).dom().len()
                + 1
            &&& pool.of(peer).qkd.keys.len() + pool.of(peer).pqc.keys.len() + bucket_of(
                gen.pending,
                peer,
            ).dom().len() + 1 >= gen.capacity ==> !after.has_room(pool, peer)
        }),
{
    let b = bucket_of(gen.pending, peer);
    let after = gen.sent(peer, key_id, bytes, now_ns);
    assert(bucket_of(after.pending, peer).dom() =~= b.dom().insert(key_id));
}

/// An acknowledgement moves a key and makes none: what a peer has and what is on its
/// way to it are together as many as before, unless the key is lost to a full buffer.
pub proof fn acknowledgement_keeps_the_count(f: KeyFlow, peer: Seq<char>, key_id: Seq<char>)
    requires
        bucket_of(f.gen.pending, peer).dom().finite(),
        f.pool.of(peer).qkd.limit is None,
        f.pool.of(peer).pqc.limit is None,
    ensures
        ({
            let (after, _) = f.acknowledged(peer, key_id);
            &&& after.pool.of(peer).qkd.keys.len() + after.pool.of(peer).pqc.keys.len()
                + bucket_of(after.gen.pending, peer).dom().len() == f.pool.of(peer).qkd.keys.len()
                + f.pool.of(peer).pqc.keys.len() + bucket_of(f.gen.pending, peer).dom().len()
            &&& bucket_of(after.gen.pending, peer).dom().finite()
            &&& after.pool.of(peer).qkd.limit is None
            &&& after.pool.of(peer).pqc.limit is None
            &&& after.gen.capacity == f.gen.capacity
            &&& after.gen.has_room(after.pool, peer) == f.gen.has_room(f.pool, peer)
        }),
{
    let (after, _) = f.acknowledged(peer, key_id);
    let b = bucket_of(f.gen.pending, peer);
    if b.dom().contains(key_id) {
        let left = f.gen.pending[peer].remove(key_id);
        assert(left.dom() =~= b.dom().remove(key_id));
        assert(bucket_of(after.gen.pending, peer).dom() =~= left.dom());
    }
}

/// However many keys a peer acknowledges, that alone does not change whether keys
/// are due for it, as its buffers take every key.
pub proof fn acknowledgements_make_no_keys_due(f: KeyFlow, peer: Seq<char>, ids: Seq<Seq<char>>)
    requires
        bucket_of(f.gen.pending, peer).dom().finite(),
        f.pool.of(peer).qkd.limit is None,
        f.pool.of(peer).pqc.limit is None,
    ensures
        ({
            let (after, _) = f.acknowledged_all(peer, ids);
            &&& after.gen.has_room(after.pool, peer) == f.gen.has_room(f.pool, peer)
            &&& bucket_of(after.gen.pending, peer).dom().finite()
            &&& after.pool.of(peer).qkd.limit is None
            &&& after.pool.of(peer).pqc.limit is None
        }),
    decreases ids.len(),
{
    if ids.len() > 0 {
        acknowledgements_make_no_keys_due(f, peer, ids.drop_last());
        acknowledgement_keeps_the_count(
            f.acknowledged_all(peer, ids.drop_last()).0,
            peer,
            ids.last(),
        );
    }
}

/// As many acknowledgements are counted as keys are moved, and each key moves once.
pub proof fn moved_keys_are_counted(f: KeyFlow, peer: Seq<char>, ids: Seq<Seq<char>>)
    ensures
        ({
            let (after, n) = f.acknowledged_all(peer, ids);
            &&& after.pool.of(peer).qkd.keys.len() + after.pool.of(peer).pqc.keys.len()
                == f.pool.of(peer).qkd.keys.len() + f.pool.of(peer).pqc.keys.len() + n
            &&& after.pool.of(peer).dec == f.pool.of(peer).dec
            &&& n <= ids.len()
        }),
    decreases ids.len(),
{
    if ids.len() > 0 {
        moved_keys_are_counted(f, peer, ids.drop_last());
    }
}

/// A key that is not acknowledged is given up when its time is up, so many
/// milliseconds after it was sent, and not before: until then its acknowledgement
/// moves it, from then on nothing does.
pub proof fn unacknowledged_key_is_given_up_in_time(
    f: KeyFlow,
    peer: Seq<char>,
    key_id: Seq<char>,
    bytes: Seq<u8>,
    now_ns: u64,
    later_ns: u64,
)
    requires
        later_ns < u64::MAX,
        f.pool.of(peer).qkd.limit is None,
        f.pool.of(peer).pqc.limit is None,
    ensures
        ({
            let sent = f.gen.sent(peer, key_id, bytes, now_ns);
            let swept = KeyFlow {
                gen: GeneratorView { pending: all_live(sent.pending, later_ns), ..sent },
                ..f
            };
            let (after, moved) = swept.acknowledged(peer, key_id);
            &&& bucket_of(sent.pending, peer).dom().contains(key_id)
            &&& bucket_of(sent.pending, peer)[key_id].bytes == bytes
            &&& moved <==> later_ns < now_ns + f.gen.ack_timeout_ms * 1_000_000
            &&& bucket_of(swept.gen.pending, peer).dom().contains(key_id) <==> later_ns < now_ns
                + f.gen.ack_timeout_ms * 1_000_000
        }),
{
    let sent = f.gen.sent(peer, key_id, bytes, now_ns);
    let entry = sent.pending[peer][key_id];
    sweep_gives_up_only_what_is_out_of_time(sent.pending, later_ns, peer, key_id, entry);
    if bucket_of(all_live(sent.pending, later_ns), peer).dom().contains(key_id) {
        let kept = bucket_of(all_live(sent.pending, later_ns), peer)[key_id];
        sweep_gives_up_only_what_is_out_of_time(sent.pending, later_ns, peer, key_id, kept);
    }
}

/// Sending to one peer leaves what is on its way to the others.
pub proof fn keys_are_sent_apart(
    gen: GeneratorView,
    peer: Seq<char>,
    key_id: Seq<char>,
    bytes: Seq<u8>,
    now_ns: u64,
    other: Seq<char>,
    other_key: Seq<char>,
)
    requires
        other != peer || other_key != key_id,
    ensures
        ({
            let after = gen.sent(peer, key_id, bytes, now_ns);
            &&& bucket_of(after.pending, other).dom().contains(other_key) == bucket_of(
                gen.pending,
                other,
            ).dom().contains(other_key)
            &&& bucket_of(gen.pending, other).dom().contains(other_key) ==> bucket_of(
                after.pending,
                other,
            )[other_key] == bucket_of(gen.pending, other)[other_key]
            &&& after.qkd == gen.qkd && after.filled == gen.filled
        }),
{
}

/// Acknowledgements are counted by what they come to: a key that moves counts as
/// acknowledged and as filled; one that nothing waits for, by whether anything waits
/// for the peer at all; one that finds the buffer full is lost and counted as such.
pub proof fn acknowledgements_are_counted_by_what_they_come_to(
    f: KeyFlow,
    peer: Seq<char>,
    key_id: Seq<char>,
)
    requires
        f.flow.of(peer).acked < u64::MAX,
        f.flow.of(peer).enc_full < u64::MAX,
        f.flow.of(peer).ack_miss_unknown_peer < u64::MAX,
        f.flow.of(peer).ack_miss_unknown_key < u64::MAX,
        f.gen.filled_of(peer) < u64::MAX,
    ensures
        ({
            let (after, moved) = f.acknowledged(peer, key_id);
            let had = f.flow.of(peer);
            let has = after.flow.of(peer);
            let known_peer = f.gen.pending.dom().contains(peer);
            let waits = known_peer && f.gen.pending[peer].dom().contains(key_id);
            let buffer = match f.gen.pending[peer][key_id].grade {
                KeyGrade::Qkd => f.pool.of(peer).qkd,
                KeyGrade::Pqc => f.pool.of(peer).pqc,
            };
            let full = buffer.limit is Some && buffer.keys.len() >= buffer.limit->0;
            &&& moved <==> waits && !full
            &&& has.acked == had.acked + (if moved {
                1int
            } else {
                0
            })
            &&& after.gen.filled_of(peer) == f.gen.filled_of(peer) + (if moved {
                1int
            } else {
                0
            })
            &&& has.enc_full == had.enc_full + (if waits && full {
                1int
            } else {
                0
            })
            &&& has.ack_miss_unknown_peer == had.ack_miss_unknown_peer + (if !known_peer {
                1int
            } else {
                0
            })
            &&& has.ack_miss_unknown_key == had.ack_miss_unknown_key + (if known_peer && !waits {
                1int
            } else {
                0
            })
            &&& !bucket_of(after.gen.pending, peer).dom().contains(key_id)
        }),
{
}

/// What travels with a key says which key it is, how long, who made it and in which
/// run, when, by which fingerprint it is known, and where to acknowledge it if
/// anywhere.
pub proof fn key_travels_with_what_it_is(
    gen: GeneratorView,
    key_id: Seq<char>,
    bytes: Seq<u8>,
    unix_ms: u64,
)
    ensures
        ({
            let h = emission_header(gen, key_id, bytes, unix_ms);
            &&& h.contains_pair("msg_type"@, MSG_TYPE_DKMS_BUFFER@)
            &&& h.contains_pair("key_id"@, key_id)
            &&& h.contains_pair("sae_origin"@, gen.my_id)
            &&& h.contains_pair("key_size_bits"@, decimal((8 * gen.key_size_bytes) as nat))
            &&& h.contains_pair("key_digest"@, digest_text(key_id, bytes))
            &&& h.contains_pair("timestamp_ms"@, decimal(unix_ms as nat))
            &&& h.contains_pair("incarnation"@, gen.incarnation)
            &&& gen.ack_endpoint matches Some(ep) ==> h.contains_pair("ack_endpoint"@, ep)
            &&& gen.ack_endpoint is None ==> !h.dom().contains("ack_endpoint"@)
        }),
{
    reveal_strlit("msg_type");
    reveal_strlit("key_id");
    reveal_strlit("sae_origin");
    reveal_strlit("key_size_bits");
    reveal_strlit("key_digest");
    reveal_strlit("timestamp_ms");
    reveal_strlit("request_id");
    reveal_strlit("incarnation");
    reveal_strlit("ack_endpoint");
    assert("ack_endpoint"@[0] != "timestamp_ms"@[0]);
    assert("sae_origin"@[0] != "key_digest"@[0]);
    assert("sae_origin"@[0] != "request_id"@[0]);
    assert("key_digest"@[0] != "request_id"@[0]);
    let h = emission_header(gen, key_id, bytes, unix_ms);
    assert("msg_type"@.len() == 8 && "key_id"@.len() == 6 && "sae_origin"@.len() == 10);
    assert("key_size_bits"@.len() == 13 && "key_digest"@.len() == 10 && "timestamp_ms"@.len() == 12);
    assert("request_id"@.len() == 10 && "incarnation"@.len() == 11 && "ack_endpoint"@.len() == 12);
    assert(HDR_MSG_TYPE@ == "msg_type"@ && HDR_KEY_ID@ == "key_id"@ && HDR_SAE_ORIGIN@
        == "sae_origin"@ && HDR_KEY_SIZE_BITS@ == "key_size_bits"@);
    assert(HDR_KEY_DIGEST@ == "key_digest"@ && HDR_TIMESTAMP_MS@ == "timestamp_ms"@
        && HDR_REQUEST_ID@ == "request_id"@ && HDR_INCARNATION@ == "incarnation"@
        && HDR_ACK_ENDPOINT@ == "ack_endpoint"@);
    assert(h.contains_pair("msg_type"@, MSG_TYPE_DKMS_BUFFER@));
    assert(h.contains_pair("key_id"@, key_id));
    assert(h.contains_pair("sae_origin"@, gen.my_id));
    assert(h.contains_pair("key_digest"@, digest_text(key_id, bytes)));
    assert(h.contains_pair("timestamp_ms"@, decimal(unix_ms as nat)));
    assert(h.contains_pair("incarnation"@, gen.incarnation));
    assert(h.contains_pair("key_size_bits"@, decimal((8 * gen.key_size_bytes) as nat)));
}

/// Failures add up over the sends, one for each that failed.
pub proof fn failures_add_up(a: Seq<Result<(), String>>, b: Seq<Result<(), String>>, e: String)
    ensures
        failures(a + b) == failures(a) + failures(b),
        failures(seq![Ok::<(), String>(())]) == 0,
        failures(seq![Err::<(), String>(e)]) == 1,
    decreases b.len(),
{
    if b.len() == 0 {
        assert(a + b =~= a);
    } else {
        assert((a + b).drop_last() =~= a + b.drop_last());
        failures_add_up(a, b.drop_last(), e);
    }
    let fine = seq![Ok::<(), String>(())];
    let bad = seq![Err::<(), String>(e)];
    assert(fine.drop_last() =~= Seq::empty());
    assert(bad.drop_last() =~= Seq::empty());
    reveal_with_fuel(failures, 2);
}

/// What is shown of several sends is what the first that failed said.
pub proof fn first_failure_is_shown(results: Seq<Result<(), String>>, i: int)
    ensures
        0 <= i < results.len() && results[i] is Err && (forall|j: int|
            0 <= j < i ==> (#[trigger] results[j]) is Ok) ==> first_failure(results) == Some(
            results[i]->Err_0@,
        ),
        (forall|j: int| 0 <= j < results.len() ==> (#[trigger] results[j]) is Ok) ==> first_failure(
            results,
        ) is None,
    decreases results.len(),
{
    if results.len() > 0 {
        let init = results.drop_last();
        first_failure_is_shown(init, i);
        if forall|j: int| 0 <= j < i ==> (#[trigger] results[j]) is Ok {
            assert forall|j: int| 0 <= j < i && j < init.len() implies (#[trigger] init[j]) is Ok by {
                assert(results[j] is Ok);
            }
        }
        if forall|j: int| 0 <= j < results.len() ==> (#[trigger] results[j]) is Ok {
            assert forall|j: int| 0 <= j < init.len() implies (#[trigger] init[j]) is Ok by {
                assert(results[j] is Ok);
            }
            assert(results[results.len() - 1] is Ok);
        }
    }
}

/// A buffer that stays empty though keys were sent is explained by the first sign
/// that there is: acknowledgements under a wrong name, then late ones, then none.
pub proof fn empty_buffer_is_explained(f: PeerFlow, enc_len: nat)
    ensures
        ({
            let d = diagnosis(f, enc_len);
            let starved = enc_len == 0 && f.emitted > 0;
            let named = f.ack_miss_unknown_peer == 0;
            &&& d == Some(Cause::IdentityMismatch) <==> starved && !named
            &&& d == Some(Cause::LateAcks) <==> starved && named && f.acked == 0
                && f.ack_miss_unknown_key > 0
            &&& d == Some(Cause::NothingReturns) <==> starved && named && f.acked == 0
                && f.ack_miss_unknown_key == 0 && f.expired > 0
        }),
{
}

/// Keys that are given up are counted for the peers that they were for.
pub proof fn keys_given_up_are_counted(
    flow: FlowView,
    list: Seq<(Seq<char>, nat)>,
    peer: Seq<char>,
    i: int,
)
    requires
        forall|a: int, b: int|
            0 <= a < b < list.len() ==> (#[trigger] list[a]).0 != (#[trigger] list[b]).0,
    ensures
        ({
            let after = expiry_counted(flow, list);
            let had = flow.of(peer);
            let has = after.of(peer);
            &&& 0 <= i < list.len() && list[i].0 == peer && had.expired + list[i].1 <= u64::MAX
                ==> has.expired == had.expired + list[i].1
            &&& (forall|a: int| 0 <= a < list.len() ==> (#[trigger] list[a]).0 != peer) ==> has == had
            &&& has.acked == had.acked && has.emitted == had.emitted && has.recv == had.recv
            &&& after.endpoints == flow.endpoints
        }),
    decreases list.len(),
{
    if list.len() > 0 {
        let init = list.drop_last();
        let n = init.len() as int;
        assert forall|a: int, b: int| 0 <= a < b < init.len() implies (#[trigger] init[a]).0 != (
        #[trigger] init[b]).0 by {
            assert(list[a].0 != list[b].0);
        }
        keys_given_up_are_counted(flow, init, peer, i);
        assert(list[n] == list.last());
        if list[n].0 == peer {
            assert forall|a: int| 0 <= a < init.len() implies (#[trigger] init[a]).0 != peer by {
                assert(list[a].0 != list[n].0);
            }
        }
        if 0 <= i < n && list[i].0 == peer {
            assert(list[i].0 != list[n].0);
            assert(init[i] == list[i]);
        }
        if forall|a: int| 0 <= a < list.len() ==> (#[trigger] list[a]).0 != peer {
            assert forall|a: int| 0 <= a < init.len() implies (#[trigger] init[a]).0 != peer by {
                assert(list[a].0 != peer);
            }
        }
    }
}

/// The controller is told of a peer how many keys of either grade it has, how many it
/// should have, and the grade of its path.
pub proof fn demand_tells_the_stock(c: CommodityLevel, gen: GeneratorView, pool: PoolView)
    requires
        level_of(c, gen, pool),
    ensures
        ({
            let keys = pool.of(c.dst_dkms@);
            &&& keys.qkd.keys.len() + keys.pqc.keys.len() <= usize::MAX ==> c.level
                == keys.qkd.keys.len() + keys.pqc.keys.len()
            &&& c.src_dkms@ == gen.my_id
            &&& c.capacity == gen.capacity
            &&& c.grade == KeyGrade::Pqc <==> gen.qkd.contains_pair(c.dst_dkms@, false)
        }),
{
}

/// A key that no peer can acknowledge is counted when it is made, and no other.
pub proof fn keys_without_an_endpoint_are_counted(
    gen: GeneratorView,
    flow: FlowView,
    peer: Seq<char>,
)
    requires
        flow.of(peer).ack_no_endpoint < u64::MAX,
    ensures
        gen.ack_endpoint is None ==> endpoint_counted(gen, flow, peer).of(peer).ack_no_endpoint
            == flow.of(peer).ack_no_endpoint + 1,
        gen.ack_endpoint is Some ==> endpoint_counted(gen, flow, peer) == flow,
{
}

/// A key that went out waits for its acknowledgement; only a send that failed takes it
/// back, and takes back nothing else.
pub proof fn sent_key_keeps_waiting(
    gen: GeneratorView,
    peer: Seq<char>,
    key_id: Seq<char>,
    other: Seq<char>,
    other_key: Seq<char>,
)
    requires
        other != peer || other_key != key_id,
    ensures
        gen.after_send(peer, key_id, true) == gen,
        !bucket_of(gen.after_send(peer, key_id, false).pending, peer).dom().contains(key_id),
        bucket_of(gen.after_send(peer, key_id, false).pending, other).dom().contains(other_key)
            == bucket_of(gen.pending, other).dom().contains(other_key),
{
    if bucket_of(gen.pending, peer).dom().contains(key_id) {
        let left = gen.pending[peer].remove(key_id);
        if other == peer && gen.pending[peer].dom().contains(other_key) {
            assert(left.dom().contains(other_key));
        }
    }
}

} // verus!
