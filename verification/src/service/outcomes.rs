//! What comes of session keys: which transport keys they use up, who may take them
//! and for how long.
use crate::buffers::{lemma_position, position, PeerKeys, PoolView};
use crate::config::{DkmsConfig, PeerCfgView};
use crate::crypto::otp::xored;
use crate::error::ErrorView;
use crate::etsi::{wrapped, DeliveredKey, Etsi020ExtKeyContainer, WrappedKey};
use crate::names::name_views;
use crate::orr::digest_text;
use crate::pending::PendingKeys;
use crate::security::{first_available, GradeResolution, KeyGrade, SecurityLevel};
use crate::service::distribution::{
    distribution, effective_level, envelopes, kept_all, wrap_all, wrap_one,
    OutgoingView,
};
use crate::service::incoming::{
    consignment, take_all, take_in_all, take_one, Consignment, Intake,
};
use crate::service::planning::GroupView;
use crate::service::session::SessionView;
use crate::service::ServiceView;
use vstd::prelude::*;

verus! {

/// Which grade each level takes, by what is in stock.
proof fn lemma_grade_taken(level: SecurityLevel, qkd: bool, pqc: bool)
    ensures
        first_available(level.prefs(), qkd, pqc) == (match level {
            SecurityLevel::StrictQkd => if qkd {
                GradeResolution::Serve(KeyGrade::Qkd)
            } else {
                GradeResolution::Unsatisfiable
            },
            SecurityLevel::QkdPrefer => if qkd {
                GradeResolution::Serve(KeyGrade::Qkd)
            } else if pqc {
                GradeResolution::Serve(KeyGrade::Pqc)
            } else {
                GradeResolution::Unsatisfiable
            },
            SecurityLevel::NoWorry => if pqc {
                GradeResolution::Serve(KeyGrade::Pqc)
            } else if qkd {
                GradeResolution::Serve(KeyGrade::Qkd)
            } else {
                GradeResolution::Unsatisfiable
            },
        }),
{
    reveal_with_fuel(first_available, 3);
}

/// How the keys of a link dwindle: the oldest go first, QKD keys alone, QKD keys
/// before the others, or the others before QKD keys.
proof fn lemma_wrapping_uses_up(
    keys: PeerKeys,
    peer: Seq<char>,
    level: SecurityLevel,
    session: Seq<SessionView>,
)
    ensures
        ({
            let (left, sent) = wrap_all(keys, peer, level.prefs(), session);
            let q = keys.qkd.keys.len() - left.qkd.keys.len();
            let p = keys.pqc.keys.len() - left.pqc.keys.len();
            &&& q >= 0 && p >= 0 && q + p <= session.len()
            &&& left.qkd.keys == keys.qkd.keys.skip(q)
            &&& left.pqc.keys == keys.pqc.keys.skip(p)
            &&& left.qkd.limit == keys.qkd.limit && left.pqc.limit == keys.pqc.limit
            &&& left.dec == keys.dec
            &&& level == SecurityLevel::StrictQkd ==> p == 0
            &&& level == SecurityLevel::QkdPrefer ==> p == 0 || left.qkd.keys.len() == 0
            &&& level == SecurityLevel::NoWorry ==> q == 0 || left.pqc.keys.len() == 0
            &&& sent matches Ok(list) ==> {
                &&& q + p == session.len()
                &&& list.len() == session.len()
                &&& forall|j: int|
                    #![trigger list[j]]
                    0 <= j < session.len() ==> {
                        let tk = if level == SecurityLevel::NoWorry {
                            if j < p {
                                keys.pqc.keys[j]
                            } else {
                                keys.qkd.keys[j - p]
                            }
                        } else if j < q {
                            keys.qkd.keys[j]
                        } else {
                            keys.pqc.keys[j - q]
                        };
                        &&& list[j].key_id == session[j].id
                        &&& list[j].transport_key_id == Some(tk.id)
                        &&& list[j].session_key_digest == Some(
                            digest_text(session[j].id, session[j].bytes),
                        )
                        &&& list[j].value.len() == session[j].bytes.len()
                        &&& session[j].bytes.len() <= tk.bytes.len()
                        &&& tk.bytes.len() >= 32
                        &&& forall|b: int|
                            0 <= b < session[j].bytes.len() ==> #[trigger] list[j].value[b]
                                == session[j].bytes[b] ^ tk.bytes[b]
                    }
            }
        }),
    decreases session.len(),
{
    if session.len() == 0 {
        assert(keys.qkd.keys.skip(0) =~= keys.qkd.keys);
        assert(keys.pqc.keys.skip(0) =~= keys.pqc.keys);
    } else {
        let init = session.drop_last();
        lemma_wrapping_uses_up(keys, peer, level, init);
        let (mid, done) = wrap_all(keys, peer, level.prefs(), init);
        let (left, sent) = wrap_all(keys, peer, level.prefs(), session);
        if done is Ok {
            lemma_grade_taken(level, mid.qkd.keys.len() > 0, mid.pqc.keys.len() > 0);
            let q = keys.qkd.keys.len() - mid.qkd.keys.len();
            let p = keys.pqc.keys.len() - mid.pqc.keys.len();
            assert(left == wrap_one(mid, peer, level.prefs(), session.last()).0);
            if mid.qkd.keys.len() > 0 {
                assert(mid.qkd.keys.drop_first() =~= keys.qkd.keys.skip(q + 1));
                assert(mid.qkd.keys[0] == keys.qkd.keys[q]);
            }
            if mid.pqc.keys.len() > 0 {
                assert(mid.pqc.keys.drop_first() =~= keys.pqc.keys.skip(p + 1));
                assert(mid.pqc.keys[0] == keys.pqc.keys[p]);
            }
            if sent is Ok {
                let list = sent->Ok_0;
                let n = init.len() as int;
                assert(list.drop_last() =~= done->Ok_0);
                assert forall|j: int| #![trigger list[j]] 0 <= j < n implies list[j]
                    == done->Ok_0[j] && session[j] == init[j] by {}
            }
        }
    }
}

/// What making envelopes does to the keys of each node: those of a node that is not
/// in the plan stay; those of one that is are used up in its turn, or stay if it was
/// not reached.
proof fn lemma_envelopes_use_up(
    cfg: DkmsConfig,
    pool: PoolView,
    master: Seq<char>,
    asked: Option<SecurityLevel>,
    groups: Seq<GroupView>,
    session: Seq<SessionView>,
    node: Seq<char>,
)
    requires
        forall|i: int, j: int|
            0 <= i < j < groups.len() ==> (#[trigger] groups[i]).node != (#[trigger] groups[j]).node,
    ensures
        ({
            let (after, made) = envelopes(cfg, pool, master, asked, groups, session);
            let prefs = effective_level(cfg, asked, node).prefs();
            let (left, sent) = wrap_all(pool.of(node), node, prefs, session);
            &&& after.capacity == pool.capacity && after.limit == pool.limit
            &&& after.of(node) == pool.of(node) || after.of(node) == left
            &&& (forall|i: int| 0 <= i < groups.len() ==> (#[trigger] groups[i]).node != node)
                ==> after.of(node) == pool.of(node)
            &&& made matches Ok(list) ==> {
                &&& list.len() == groups.len()
                &&& forall|i: int|
                    #![trigger list[i]]
                    0 <= i < groups.len() ==> {
                        &&& list[i].node == groups[i].node
                        &&& list[i].envelope.initiator_sae_id == master
                        &&& list[i].envelope.target_sae_ids == groups[i].saes
                        &&& list[i].envelope.ttl_seconds == Some(cfg.pending.default_ttl_secs)
                        &&& list[i].envelope.ack_callback_url == "https://"@ + cfg.node_id@
                            + "/kmapi/v1/ext_keys/ack"@
                        &&& groups[i].node == node ==> after.of(node) == left && sent == Ok::<
                            Seq<WrappedKey>,
                            ErrorView,
                        >(list[i].envelope.keys)
                    }
            }
        }),
    decreases groups.len(),
{
    if groups.len() > 0 {
        let init = groups.drop_last();
        assert forall|i: int, j: int| 0 <= i < j < init.len() implies (#[trigger] init[i]).node != (
        #[trigger] init[j]).node by {
            assert(groups[i].node != groups[j].node);
        }
        lemma_envelopes_use_up(cfg, pool, master, asked, init, session, node);
        let (mid, done) = envelopes(cfg, pool, master, asked, init, session);
        let (after, made) = envelopes(cfg, pool, master, asked, groups, session);
        let g = groups.last();
        let n = init.len() as int;
        assert(groups[n] == g);
        if g.node == node {
            assert forall|i: int| 0 <= i < init.len() implies (#[trigger] init[i]).node != node by {
                assert(groups[i].node != groups[n].node);
            }
        }
        if (forall|i: int| 0 <= i < groups.len() ==> (#[trigger] groups[i]).node != node) {
            assert forall|i: int| 0 <= i < init.len() implies (#[trigger] init[i]).node != node by {
                assert(groups[i].node != node);
            }
        }
        if made is Ok {
            let list = made->Ok_0;
            assert(list.drop_last() =~= done->Ok_0);
            assert forall|i: int| #![trigger list[i]] 0 <= i < n implies list[i] == done->Ok_0[i]
                && groups[i] == init[i] by {}
        }
    }
}

/// The level of a request decides which transport keys it uses, and where it names
/// none, the level that is configured for the peer does, or else the default one. Of
/// the keys of a node in the plan, whether the distribution succeeds or not, only the
/// oldest are used: QKD keys alone under strict QKD; QKD keys as long as there are
/// any where they are preferred; the others as long as there are any where nobody
/// worries. Where it succeeds, each session key is laid under one of them, in turn.
pub proof fn the_level_decides_which_keys_are_used(
    s: ServiceView,
    master: Seq<char>,
    local: Seq<Seq<char>>,
    groups: Seq<GroupView>,
    asked: Option<SecurityLevel>,
    session: Seq<SessionView>,
    now_ns: u64,
    i: int,
    level: SecurityLevel,
)
    requires
        0 <= i < groups.len(),
        forall|a: int, b: int|
            0 <= a < b < groups.len() ==> (#[trigger] groups[a]).node != (#[trigger] groups[b]).node,
        match asked {
            Some(l) => level == l,
            None => if s.cfg.peers@.dom().contains(groups[i].node)
                && s.cfg.peers@[groups[i].node].security_level is Some {
                s.cfg.peers@[groups[i].node].security_level == Some(level)
            } else {
                level == s.cfg.default_security_level
            },
        },
    ensures
        ({
            let (after, made) = distribution(s, master, local, groups, asked, session, now_ns);
            let had = s.pool.of(groups[i].node);
            let has = after.pool.of(groups[i].node);
            let q = had.qkd.keys.len() - has.qkd.keys.len();
            let p = had.pqc.keys.len() - has.pqc.keys.len();
            &&& q >= 0 && p >= 0 && q + p <= session.len()
            &&& has.qkd.keys == had.qkd.keys.skip(q)
            &&& has.pqc.keys == had.pqc.keys.skip(p)
            &&& has.dec == had.dec
            &&& level == SecurityLevel::StrictQkd ==> has.pqc == had.pqc
            &&& level == SecurityLevel::QkdPrefer ==> p == 0 || has.qkd.keys.len() == 0
            &&& level == SecurityLevel::QkdPrefer && had.qkd.keys.len() >= session.len() ==> has.pqc
                == had.pqc
            &&& level == SecurityLevel::NoWorry ==> q == 0 || has.pqc.keys.len() == 0
            &&& level == SecurityLevel::NoWorry && had.pqc.keys.len() >= session.len() ==> has.qkd
                == had.qkd
            &&& made matches Ok(list) ==> {
                &&& q + p == session.len()
                &&& list.len() == groups.len()
                &&& list[i].node == groups[i].node
                &&& list[i].envelope.initiator_sae_id == master
                &&& list[i].envelope.target_sae_ids == groups[i].saes
                &&& list[i].envelope.ttl_seconds == Some(s.cfg.pending.default_ttl_secs)
                &&& list[i].envelope.ack_callback_url == "https://"@ + s.cfg.node_id@
                    + "/kmapi/v1/ext_keys/ack"@
                &&& list[i].envelope.keys.len() == session.len()
                &&& forall|j: int|
                    #![trigger list[i].envelope.keys[j]]
                    0 <= j < session.len() ==> {
                        let w = list[i].envelope.keys[j];
                        let tk = if level == SecurityLevel::NoWorry {
                            if j < p {
                                had.pqc.keys[j]
                            } else {
                                had.qkd.keys[j - p]
                            }
                        } else if j < q {
                            had.qkd.keys[j]
                        } else {
                            had.pqc.keys[j - q]
                        };
                        &&& w.key_id == session[j].id
                        &&& w.transport_key_id == Some(tk.id)
                        &&& w.session_key_digest == Some(
                            digest_text(session[j].id, session[j].bytes),
                        )
                        &&& w.value.len() == session[j].bytes.len()
                        &&& session[j].bytes.len() <= tk.bytes.len()
                        &&& tk.bytes.len() >= 32
                        &&& forall|b: int|
                            0 <= b < session[j].bytes.len() ==> #[trigger] w.value[b]
                                == session[j].bytes[b] ^ tk.bytes[b]
                    }
            }
        }),
{
    let node = groups[i].node;
    let had = s.pool.of(node);
    assert(effective_level(s.cfg, asked, node) == level);
    lemma_envelopes_use_up(s.cfg, s.pool, master, asked, groups, session, node);
    lemma_wrapping_uses_up(had, node, level, session);
    let (pool, made) = envelopes(s.cfg, s.pool, master, asked, groups, session);
    let has = pool.of(node);
    if has == had {
        assert(had.qkd.keys.skip(0) =~= had.qkd.keys);
        assert(had.pqc.keys.skip(0) =~= had.pqc.keys);
    }
    assert(has.pqc.keys.len() == had.pqc.keys.len() ==> has.pqc =~= had.pqc);
    assert(has.qkd.keys.len() == had.qkd.keys.len() ==> has.qkd =~= had.qkd);
    if made is Ok {
        let list = made->Ok_0;
        assert(list[i].node == node);
    }
}

/// A distribution touches the transport keys of the nodes in the plan alone.
pub proof fn other_nodes_keep_their_keys(
    s: ServiceView,
    master: Seq<char>,
    local: Seq<Seq<char>>,
    groups: Seq<GroupView>,
    asked: Option<SecurityLevel>,
    session: Seq<SessionView>,
    now_ns: u64,
    node: Seq<char>,
)
    requires
        forall|a: int, b: int|
            0 <= a < b < groups.len() ==> (#[trigger] groups[a]).node != (#[trigger] groups[b]).node,
        forall|a: int| 0 <= a < groups.len() ==> (#[trigger] groups[a]).node != node,
    ensures
        ({
            let (after, _) = distribution(s, master, local, groups, asked, session, now_ns);
            &&& after.pool.of(node) == s.pool.of(node)
            &&& after.buckets == s.buckets
            &&& after.gen == s.gen
            &&& after.flow == s.flow
            &&& after.acks == s.acks
        }),
{
    lemma_envelopes_use_up(s.cfg, s.pool, master, asked, groups, session, node);
}

proof fn lemma_kept(
    pending: PendingKeys,
    session: Seq<SessionView>,
    master: Seq<char>,
    authorized: Set<Seq<char>>,
    now_ns: u64,
    i: int,
)
    requires
        0 <= i < session.len(),
        forall|a: int, b: int|
            0 <= a < b < session.len() ==> (#[trigger] session[a]).id != (#[trigger] session[b]).id,
    ensures
        ({
            let after = kept_all(pending, session, master, authorized, now_ns);
            &&& after.default_ttl_ns == pending.default_ttl_ns
            &&& after.keys.dom().contains(session[i].id)
            &&& after.keys[session[i].id].bytes == session[i].bytes
            &&& after.keys[session[i].id].initiator == master
            &&& after.keys[session[i].id].authorized == authorized
            &&& after.keys[session[i].id].deadline_ns == pending.deadline(now_ns, None)
        }),
    decreases session.len(),
{
    let init = session.drop_last();
    assert forall|a: int, b: int| 0 <= a < b < init.len() implies (#[trigger] init[a]).id != (
    #[trigger] init[b]).id by {
        assert(session[a].id != session[b].id);
    }
    lemma_kept_ttl(pending, init, master, authorized, now_ns);
    if i < session.len() - 1 {
        lemma_kept(pending, init, master, authorized, now_ns, i);
        assert(session[i].id != session[session.len() - 1].id);
    }
}

proof fn lemma_kept_ttl(
    pending: PendingKeys,
    session: Seq<SessionView>,
    master: Seq<char>,
    authorized: Set<Seq<char>>,
    now_ns: u64,
)
    ensures
        kept_all(pending, session, master, authorized, now_ns).default_ttl_ns
            == pending.default_ttl_ns,
    decreases session.len(),
{
    if session.len() > 0 {
        lemma_kept_ttl(pending, session.drop_last(), master, authorized, now_ns);
    }
}

/// The applications of this node get what the application that asked gets: after a
/// distribution, whatever other nodes are in the plan, each application of this node
/// that is in it can take each session key with its bytes from now until the default
/// time of keys is up, and not from then on; no other application of this node can.
pub proof fn local_applications_get_the_session_keys(
    s: ServiceView,
    master: Seq<char>,
    local: Seq<Seq<char>>,
    groups: Seq<GroupView>,
    asked: Option<SecurityLevel>,
    session: Seq<SessionView>,
    now_ns: u64,
    i: int,
    sae: Seq<char>,
    later_ns: u64,
)
    requires
        local.len() > 0,
        0 <= i < session.len(),
        forall|a: int, b: int|
            0 <= a < b < session.len() ==> (#[trigger] session[a]).id != (#[trigger] session[b]).id,
        later_ns < u64::MAX,
    ensures
        ({
            let (after, _) = distribution(s, master, local, groups, asked, session, now_ns);
            let (left, taken) = take_one(after.pending, sae, session[i].id, later_ns);
            &&& local.contains(sae) && later_ns < now_ns + s.pending.default_ttl_ns ==> (taken matches Ok(
                k,
            ) && k.key_id == session[i].id && k.key == session[i].bytes)
            &&& local.contains(sae) && later_ns >= now_ns + s.pending.default_ttl_ns ==> taken
                == Err::<DeliveredKey, ErrorView>(ErrorView::KeyExpired)
            &&& !local.contains(sae) ==> taken == Err::<DeliveredKey, ErrorView>(
                ErrorView::KeyNotAuthorized { sae },
            )
            &&& taken is Err ==> left == after.pending
            &&& after.pending.keys[session[i].id].initiator == master
        }),
{
    lemma_kept(s.pending, session, master, local.to_set(), now_ns, i);
}

/// Where no application of this node is in the plan, nothing is kept here.
pub proof fn nothing_is_kept_for_other_nodes(
    s: ServiceView,
    master: Seq<char>,
    groups: Seq<GroupView>,
    asked: Option<SecurityLevel>,
    session: Seq<SessionView>,
    now_ns: u64,
)
    ensures
        distribution(s, master, Seq::empty(), groups, asked, session, now_ns).0.pending
            == s.pending,
{
}

/// What taking in keys leaves in the store: a key that is given back as kept is for
/// the applications of the consignment, and whatever is not given back is as it was.
proof fn lemma_taken_in(st: Intake, c: Consignment, keys: Seq<WrappedKey>, now_ns: u64, id: Seq<char>)
    ensures
        ({
            let (after, kept) = take_in_all(st, c, keys, now_ns);
            &&& after.pending.default_ttl_ns == st.pending.default_ttl_ns
            &&& kept matches Ok(ids) ==> {
                &&& ids.contains(id) ==> {
                    &&& after.pending.keys.dom().contains(id)
                    &&& after.pending.keys[id].initiator == c.initiator
                    &&& after.pending.keys[id].authorized == c.targets
                    &&& after.pending.keys[id].deadline_ns == st.pending.deadline(now_ns, c.ttl_ns)
                }
                &&& !ids.contains(id) ==> {
                    &&& after.pending.keys.dom().contains(id) == st.pending.keys.dom().contains(id)
                    &&& after.pending.keys.dom().contains(id) ==> after.pending.keys[id]
                        == st.pending.keys[id]
                }
            }
        }),
    decreases keys.len(),
{
    if keys.len() > 0 {
        let init = keys.drop_last();
        lemma_taken_in(st, c, init, now_ns, id);
        let (mid, done) = take_in_all(st, c, init, now_ns);
        let (after, kept) = take_in_all(st, c, keys, now_ns);
        if kept is Ok {
            let ids0 = done->Ok_0;
            let ids = kept->Ok_0;
            if ids.len() > ids0.len() {
                assert(ids == ids0.push(keys.last().key_id));
                assert(ids[ids0.len() as int] == keys.last().key_id);
                if ids0.contains(id) {
                    let a = choose|a: int| 0 <= a < ids0.len() && ids0[a] == id;
                    assert(ids[a] == id);
                }
                if ids.contains(id) {
                    let a = choose|a: int| 0 <= a < ids.len() && ids[a] == id;
                    if a < ids0.len() {
                        assert(ids0[a] == id);
                    }
                }
            }
        }
    }
}

/// A session key from another node is kept for as long as its envelope says: each
/// target can take a key that was acknowledged until that many seconds have gone by,
/// and not from then on; without a word on it, until the default time of keys is up.
/// No other application can take it.
pub proof fn received_key_lasts_as_long_as_its_envelope_says(
    s: ServiceView,
    peer: Seq<char>,
    body: Etsi020ExtKeyContainer,
    now_ns: u64,
    id: Seq<char>,
    sae: Seq<char>,
    later_ns: u64,
)
    requires
        later_ns < u64::MAX,
        ({
            let kept = take_in_all(
                s.intake(peer),
                consignment(peer, body),
                wrapped(body.keys@),
                now_ns,
            ).1;
            kept is Ok && kept->Ok_0.contains(id)
        }),
    ensures
        ({
            let st = take_in_all(
                s.intake(peer),
                consignment(peer, body),
                wrapped(body.keys@),
                now_ns,
            ).0;
            let after = s.with_intake(peer, st);
            let taken = take_one(after.pending, sae, id, later_ns).1;
            let is_target = exists|j: int|
                0 <= j < body.target_sae_ids@.len() && #[trigger] body.target_sae_ids@[j]@ == sae;
            let until_ns = match body.ttl_seconds {
                Some(secs) => now_ns + secs * 1_000_000_000,
                None => now_ns + s.pending.default_ttl_ns,
            };
            &&& is_target && later_ns < until_ns ==> (taken matches Ok(k) && k.key_id == id)
            &&& is_target && later_ns >= until_ns ==> taken == Err::<
                DeliveredKey,
                ErrorView,
            >(ErrorView::KeyExpired)
            &&& !is_target ==> taken == Err::<DeliveredKey, ErrorView>(
                ErrorView::KeyNotAuthorized { sae },
            )
            &&& after.pending.keys[id].initiator == body.initiator_sae_id@
        }),
{
    let c = consignment(peer, body);
    lemma_taken_in(s.intake(peer), c, wrapped(body.keys@), now_ns, id);
    let names = name_views(body.target_sae_ids@);
    assert(names.len() == body.target_sae_ids@.len());
    if c.targets.contains(sae) {
        let j = choose|j: int| 0 <= j < names.len() && names[j] == sae;
        assert(body.target_sae_ids@[j]@ == sae);
    }
    if exists|j: int| 0 <= j < body.target_sae_ids@.len() && #[trigger] body.target_sae_ids@[j]@ == sae {
        let j = choose|j: int|
            0 <= j < body.target_sae_ids@.len() && #[trigger] body.target_sae_ids@[j]@ == sae;
        assert(names[j] == sae);
    }
}

/// Session keys that are not acknowledged are not kept: what waits under another
/// name is as it was before the envelope.
pub proof fn only_acknowledged_keys_are_kept(
    s: ServiceView,
    peer: Seq<char>,
    body: Etsi020ExtKeyContainer,
    now_ns: u64,
    id: Seq<char>,
)
    requires
        ({
            let kept = take_in_all(
                s.intake(peer),
                consignment(peer, body),
                wrapped(body.keys@),
                now_ns,
            ).1;
            kept is Ok && !kept->Ok_0.contains(id)
        }),
    ensures
        ({
            let after = s.with_intake(
                peer,
                take_in_all(
                    s.intake(peer),
                    consignment(peer, body),
                    wrapped(body.keys@),
                    now_ns,
                ).0,
            );
            &&& after.pending.keys.dom().contains(id) == s.pending.keys.dom().contains(id)
            &&& after.pending.keys.dom().contains(id) ==> after.pending.keys[id]
                == s.pending.keys[id]
        }),
{
    lemma_taken_in(s.intake(peer), consignment(peer, body), wrapped(body.keys@), now_ns, id);
}

/// One session key is decrypted with the oldest transport key of the name that it
/// comes with: it is kept with its bytes laid bare, that transport key and no other is
/// gone, and what there is to encrypt with stays.
pub proof fn received_key_is_laid_bare(
    s: ServiceView,
    peer: Seq<char>,
    body: Etsi020ExtKeyContainer,
    now_ns: u64,
    i: int,
)
    requires
        body.keys@.len() == 1,
        ({
            let dec = s.pool.of(peer).dec.keys;
            let k = body.keys@[0]@;
            &&& 0 <= i < dec.len()
            &&& k.transport_key_id == Some(dec[i].id)
            &&& forall|j: int| 0 <= j < i ==> (#[trigger] dec[j]).id != dec[i].id
            &&& k.value.len() <= dec[i].bytes.len()
            &&& k.session_key_digest is None || k.session_key_digest->0 == digest_text(
                k.key_id,
                Seq::new(k.value.len(), |b: int| k.value[b] ^ dec[i].bytes[b]),
            )
        }),
    ensures
        ({
            let dec = s.pool.of(peer).dec.keys;
            let k = body.keys@[0]@;
            let (st, kept) = take_in_all(
                s.intake(peer),
                consignment(peer, body),
                wrapped(body.keys@),
                now_ns,
            );
            let after = s.with_intake(peer, st);
            &&& kept == Ok::<Seq<Seq<char>>, ErrorView>(seq![k.key_id])
            &&& after.pending.keys.dom() == s.pending.keys.dom().insert(k.key_id)
            &&& after.pending.keys[k.key_id].bytes.len() == k.value.len()
            &&& forall|b: int|
                0 <= b < k.value.len() ==> #[trigger] after.pending.keys[k.key_id].bytes[b]
                    == k.value[b] ^ dec[i].bytes[b]
            &&& after.pool.of(peer).dec.keys == dec.remove(i)
            &&& after.pool.of(peer).qkd == s.pool.of(peer).qkd
            &&& after.pool.of(peer).pqc == s.pool.of(peer).pqc
            &&& after.flow == s.flow
            &&& forall|other: Seq<char>|
                other != peer ==> #[trigger] after.pool.of(other) == s.pool.of(other)
        }),
{
    let keys = wrapped(body.keys@);
    let k = body.keys@[0]@;
    let dec = s.pool.of(peer).dec.keys;
    assert(keys.len() == 1 && keys.last() == k);
    assert(keys.drop_last() =~= Seq::<WrappedKey>::empty());
    reveal_with_fuel(take_in_all, 2);
    lemma_position(dec, dec[i].id);
    let at = position(dec, dec[i].id);
    assert(at is Some);
    assert(at->0 == i);
    assert(xored(k.value, dec[i].bytes) =~= Seq::new(
        k.value.len(),
        |b: int| k.value[b] ^ dec[i].bytes[b],
    ));
    let (st, kept) = take_in_all(s.intake(peer), consignment(peer, body), keys, now_ns);
    assert(kept->Ok_0 =~= seq![k.key_id]);
    let after = s.with_intake(peer, st);
    assert(after.pending.keys.dom() =~= s.pending.keys.dom().insert(k.key_id));
}

/// How many session keys a link has transport keys for.
proof fn lemma_wrapping_succeeds(
    keys: PeerKeys,
    peer: Seq<char>,
    level: SecurityLevel,
    session: Seq<SessionView>,
)
    requires
        forall|a: int, j: int|
            0 <= a < keys.qkd.keys.len() && 0 <= j < session.len()
                ==> (#[trigger] keys.qkd.keys[a]).bytes.len() >= (#[trigger] session[j]).bytes.len(),
        forall|a: int, j: int|
            0 <= a < keys.pqc.keys.len() && 0 <= j < session.len()
                ==> (#[trigger] keys.pqc.keys[a]).bytes.len() >= (#[trigger] session[j]).bytes.len(),
        forall|a: int|
            0 <= a < keys.qkd.keys.len() ==> (#[trigger] keys.qkd.keys[a]).bytes.len() >= 32,
        forall|a: int|
            0 <= a < keys.pqc.keys.len() ==> (#[trigger] keys.pqc.keys[a]).bytes.len() >= 32,
    ensures
        ({
            let stock = if level == SecurityLevel::StrictQkd {
                keys.qkd.keys.len()
            } else {
                keys.qkd.keys.len() + keys.pqc.keys.len()
            };
            let made = wrap_all(keys, peer, level.prefs(), session).1;
            &&& stock >= session.len() ==> made is Ok
            &&& stock < session.len() ==> made == Err::<Seq<WrappedKey>, ErrorView>(
                ErrorView::TransportBufferEmpty { peer },
            )
        }),
    decreases session.len(),
{
    if session.len() > 0 {
        let init = session.drop_last();
        assert forall|a: int, j: int| 0 <= a < keys.qkd.keys.len() && 0 <= j < init.len() implies (
        #[trigger] keys.qkd.keys[a]).bytes.len() >= (#[trigger] init[j]).bytes.len() by {
            assert(session[j] == init[j]);
        }
        assert forall|a: int, j: int| 0 <= a < keys.pqc.keys.len() && 0 <= j < init.len() implies (
        #[trigger] keys.pqc.keys[a]).bytes.len() >= (#[trigger] init[j]).bytes.len() by {
            assert(session[j] == init[j]);
        }
        lemma_wrapping_succeeds(keys, peer, level, init);
        lemma_wrapping_uses_up(keys, peer, level, init);
        let (mid, done) = wrap_all(keys, peer, level.prefs(), init);
        lemma_grade_taken(level, mid.qkd.keys.len() > 0, mid.pqc.keys.len() > 0);
        let last = session[session.len() - 1];
        if mid.qkd.keys.len() > 0 {
            let q = keys.qkd.keys.len() - mid.qkd.keys.len();
            assert(mid.qkd.keys[0] == keys.qkd.keys[q]);
            assert(keys.qkd.keys[q].bytes.len() >= last.bytes.len());
        }
        if mid.pqc.keys.len() > 0 {
            let p = keys.pqc.keys.len() - mid.pqc.keys.len();
            assert(mid.pqc.keys[0] == keys.pqc.keys[p]);
            assert(keys.pqc.keys[p].bytes.len() >= last.bytes.len());
        }
    }
}

proof fn lemma_envelopes_succeed(
    cfg: DkmsConfig,
    pool: PoolView,
    master: Seq<char>,
    asked: Option<SecurityLevel>,
    groups: Seq<GroupView>,
    session: Seq<SessionView>,
)
    requires
        forall|i: int, j: int|
            0 <= i < j < groups.len() ==> (#[trigger] groups[i]).node != (#[trigger] groups[j]).node,
        forall|i: int|
            #![trigger groups[i]]
            0 <= i < groups.len() ==> wrap_all(
                pool.of(groups[i].node),
                groups[i].node,
                effective_level(cfg, asked, groups[i].node).prefs(),
                session,
            ).1 is Ok,
    ensures
        envelopes(cfg, pool, master, asked, groups, session).1 is Ok,
    decreases groups.len(),
{
    if groups.len() > 0 {
        let init = groups.drop_last();
        let n = init.len() as int;
        assert forall|i: int, j: int| 0 <= i < j < init.len() implies (#[trigger] init[i]).node != (
        #[trigger] init[j]).node by {
            assert(groups[i].node != groups[j].node);
        }
        assert forall|i: int| #![trigger init[i]] 0 <= i < init.len() implies wrap_all(
            pool.of(init[i].node),
            init[i].node,
            effective_level(cfg, asked, init[i].node).prefs(),
            session,
        ).1 is Ok by {
            assert(groups[i] == init[i]);
        }
        lemma_envelopes_succeed(cfg, pool, master, asked, init, session);
        let node = groups[n].node;
        assert forall|i: int| 0 <= i < init.len() implies (#[trigger] init[i]).node != node by {
            assert(groups[i].node != groups[n].node);
        }
        lemma_envelopes_use_up(cfg, pool, master, asked, init, session, node);
    }
}

proof fn lemma_reachable(
    peers: Map<Seq<char>, PeerCfgView>,
    has_client: bool,
    nodes: Seq<OutgoingView>,
)
    ensures
        crate::service::distribution::unreachable(peers, has_client, nodes) is None <==> forall|i: int|
            0 <= i < nodes.len() ==> has_client && peers.dom().contains(
                (#[trigger] nodes[i]).node,
            ),
    decreases nodes.len(),
{
    if nodes.len() > 0 {
        let rest = nodes.drop_first();
        lemma_reachable(peers, has_client, rest);
        assert forall|i: int| 0 <= i < rest.len() implies #[trigger] rest[i] == nodes[i + 1] by {}
        if has_client && peers.dom().contains(nodes[0].node) {
            if crate::service::distribution::unreachable(peers, has_client, rest) is None {
                assert forall|i: int| 0 <= i < nodes.len() implies has_client
                    && peers.dom().contains((#[trigger] nodes[i]).node) by {
                    if i > 0 {
                        assert(rest[i - 1] == nodes[i]);
                    }
                }
            } else if forall|i: int|
                0 <= i < nodes.len() ==> has_client && peers.dom().contains(
                    (#[trigger] nodes[i]).node,
                ) {
                assert forall|i: int| 0 <= i < rest.len() implies has_client
                    && peers.dom().contains((#[trigger] rest[i]).node) by {
                    assert(nodes[i + 1] == rest[i]);
                }
            }
        }
    }
}

/// A distribution succeeds when it can: there is a client, each node of the plan is
/// known, and each has as many transport keys as there are session keys, of the grades
/// that its level allows and long enough. A plan without other nodes always succeeds.
pub proof fn distribution_succeeds_when_it_can(
    s: ServiceView,
    master: Seq<char>,
    local: Seq<Seq<char>>,
    groups: Seq<GroupView>,
    asked: Option<SecurityLevel>,
    session: Seq<SessionView>,
    now_ns: u64,
)
    requires
        groups.len() > 0 ==> s.has_peer_client,
        forall|a: int, b: int|
            0 <= a < b < groups.len() ==> (#[trigger] groups[a]).node != (#[trigger] groups[b]).node,
        forall|i: int|
            #![trigger groups[i]]
            0 <= i < groups.len() ==> {
                let node = groups[i].node;
                let keys = s.pool.of(node);
                let strict = match asked {
                    Some(l) => l == SecurityLevel::StrictQkd,
                    None => if s.cfg.peers@.dom().contains(node)
                        && s.cfg.peers@[node].security_level is Some {
                        s.cfg.peers@[node].security_level == Some(SecurityLevel::StrictQkd)
                    } else {
                        s.cfg.default_security_level == SecurityLevel::StrictQkd
                    },
                };
                &&& s.peers.peers.dom().contains(node)
                &&& keys.qkd.keys.len() + (if strict {
                    0
                } else {
                    keys.pqc.keys.len() as int
                }) >= session.len()
                &&& forall|a: int|
                    0 <= a < keys.qkd.keys.len() ==> (#[trigger] keys.qkd.keys[a]).bytes.len() >= 32
                &&& forall|a: int|
                    0 <= a < keys.pqc.keys.len() ==> (#[trigger] keys.pqc.keys[a]).bytes.len() >= 32
                &&& forall|a: int, j: int|
                    0 <= a < keys.qkd.keys.len() && 0 <= j < session.len()
                        ==> (#[trigger] keys.qkd.keys[a]).bytes.len() >= (
                    #[trigger] session[j]).bytes.len()
                &&& forall|a: int, j: int|
                    0 <= a < keys.pqc.keys.len() && 0 <= j < session.len()
                        ==> (#[trigger] keys.pqc.keys[a]).bytes.len() >= (
                    #[trigger] session[j]).bytes.len()
            },
    ensures
        distribution(s, master, local, groups, asked, session, now_ns).1 is Ok,
{
    assert forall|i: int| #![trigger groups[i]] 0 <= i < groups.len() implies wrap_all(
        s.pool.of(groups[i].node),
        groups[i].node,
        effective_level(s.cfg, asked, groups[i].node).prefs(),
        session,
    ).1 is Ok by {
        lemma_wrapping_succeeds(
            s.pool.of(groups[i].node),
            groups[i].node,
            effective_level(s.cfg, asked, groups[i].node),
            session,
        );
    }
    lemma_envelopes_succeed(s.cfg, s.pool, master, asked, groups, session);
    let list = envelopes(s.cfg, s.pool, master, asked, groups, session).1->Ok_0;
    assert forall|i: int| 0 <= i < list.len() implies s.has_peer_client
        && s.peers.peers.dom().contains((#[trigger] list[i]).node) by {
        lemma_envelopes_use_up(s.cfg, s.pool, master, asked, groups, session, Seq::empty());
        assert(list[i].node == groups[i].node);
    }
    if groups.len() > 0 {
        lemma_envelopes_use_up(s.cfg, s.pool, master, asked, groups, session, Seq::empty());
    }
    lemma_reachable(s.peers.peers, s.has_peer_client, list);
}

/// A node that is short of transport keys is named in the refusal, and nothing is
/// sent to a node that is not known or without a client.
pub proof fn distribution_fails_when_it_must(
    s: ServiceView,
    master: Seq<char>,
    local: Seq<Seq<char>>,
    groups: Seq<GroupView>,
    asked: Option<SecurityLevel>,
    session: Seq<SessionView>,
    now_ns: u64,
    i: int,
)
    requires
        0 <= i < groups.len(),
        forall|a: int, b: int|
            0 <= a < b < groups.len() ==> (#[trigger] groups[a]).node != (#[trigger] groups[b]).node,
        !s.has_peer_client || !s.peers.peers.dom().contains(groups[i].node) || s.pool.of(
            groups[i].node,
        ).qkd.keys.len() + s.pool.of(groups[i].node).pqc.keys.len() < session.len(),
    ensures
        distribution(s, master, local, groups, asked, session, now_ns).1 is Err,
{
    let node = groups[i].node;
    lemma_envelopes_use_up(s.cfg, s.pool, master, asked, groups, session, node);
    lemma_wrapping_uses_up(
        s.pool.of(node),
        node,
        effective_level(s.cfg, asked, node),
        session,
    );
    let made = envelopes(s.cfg, s.pool, master, asked, groups, session).1;
    if made is Ok {
        let list = made->Ok_0;
        assert(list[i].node == node);
        lemma_reachable(s.peers.peers, s.has_peer_client, list);
    }
}

/// An application gets the keys that it names, all of them and in that order, if each
/// is there for it; each is then used up for it. If one is not, it gets none of them.
pub proof fn named_keys_are_handed_out_in_order(
    pending: PendingKeys,
    sae: Seq<char>,
    ids: Seq<Seq<char>>,
    now_ns: u64,
)
    requires
        forall|i: int, j: int| 0 <= i < j < ids.len() ==> #[trigger] ids[i] != #[trigger] ids[j],
    ensures
        ({
            let (after, r) = take_all(pending, sae, ids, now_ns);
            let all = forall|i: int|
                #![trigger ids[i]]
                0 <= i < ids.len() ==> {
                    &&& pending.keys.dom().contains(ids[i])
                    &&& pending.keys[ids[i]].authorized.contains(sae)
                    &&& now_ns < pending.keys[ids[i]].deadline_ns
                };
            &&& r is Ok <==> all
            &&& r matches Ok(list) ==> {
                &&& list.len() == ids.len()
                &&& forall|i: int|
                    #![trigger list[i]]
                    0 <= i < ids.len() ==> list[i].key_id == ids[i] && list[i].key
                        == pending.keys[ids[i]].bytes
                &&& forall|i: int|
                    #![trigger ids[i]]
                    0 <= i < ids.len() && after.keys.dom().contains(ids[i])
                        ==> !after.keys[ids[i]].authorized.contains(sae)
            }
            &&& forall|k: Seq<char>|
                !ids.contains(k) ==> (#[trigger] after.keys.dom().contains(k)
                    == pending.keys.dom().contains(k)) && after.keys[k] == pending.keys[k]
        }),
    decreases ids.len(),
{
    if ids.len() > 0 {
        let init = ids.drop_last();
        let n = init.len() as int;
        let id = ids[n];
        assert forall|i: int, j: int| 0 <= i < j < init.len() implies #[trigger] init[i]
            != #[trigger] init[j] by {
            assert(ids[i] != ids[j]);
        }
        named_keys_are_handed_out_in_order(pending, sae, init, now_ns);
        let (mid, done) = take_all(pending, sae, init, now_ns);
        let (after, r) = take_all(pending, sae, ids, now_ns);
        assert forall|i: int| #![trigger init[i]] 0 <= i < n implies init[i] == ids[i] && ids[i]
            != id by {
            assert(ids[i] != ids[n]);
        }
        assert(!init.contains(id)) by {
            if init.contains(id) {
                let i = choose|i: int| 0 <= i < init.len() && init[i] == id;
                assert(ids[i] != ids[n]);
            }
        }
        assert(mid.keys.dom().contains(id) == pending.keys.dom().contains(id) && mid.keys[id]
            == pending.keys[id]);
        assert forall|k: Seq<char>| !ids.contains(k) implies (#[trigger] after.keys.dom().contains(k)
            == pending.keys.dom().contains(k)) && after.keys[k] == pending.keys[k] by {
            assert(!init.contains(k)) by {
                if init.contains(k) {
                    let i = choose|i: int| 0 <= i < init.len() && init[i] == k;
                    assert(ids[i] == k);
                }
            }
            assert(ids[n] != k);
            assert(mid.keys.dom().contains(k) == pending.keys.dom().contains(k));
        }
        if forall|i: int|
            #![trigger ids[i]]
            0 <= i < ids.len() ==> {
                &&& pending.keys.dom().contains(ids[i])
                &&& pending.keys[ids[i]].authorized.contains(sae)
                &&& now_ns < pending.keys[ids[i]].deadline_ns
            } {
            assert forall|i: int| #![trigger init[i]] 0 <= i < init.len() implies {
                &&& pending.keys.dom().contains(init[i])
                &&& pending.keys[init[i]].authorized.contains(sae)
                &&& now_ns < pending.keys[init[i]].deadline_ns
            } by {
                assert(init[i] == ids[i]);
            }
            assert(done is Ok);
            assert(r is Ok);
        }
        if r is Ok {
            let list = r->Ok_0;
            assert(list.drop_last() =~= done->Ok_0);
            assert forall|i: int| #![trigger ids[i]] 0 <= i < ids.len() && after.keys.dom().contains(
                ids[i],
            ) implies !after.keys[ids[i]].authorized.contains(sae) by {
                if i < n {
                    assert(init[i] == ids[i]);
                }
            }
            assert forall|i: int| #![trigger list[i]] 0 <= i < ids.len() implies list[i].key_id
                == ids[i] && list[i].key == pending.keys[ids[i]].bytes by {
                if i < n {
                    assert(done->Ok_0[i] == list[i]);
                    assert(init[i] == ids[i]);
                }
            }
            assert forall|i: int| #![trigger ids[i]] 0 <= i < ids.len() implies {
                &&& pending.keys.dom().contains(ids[i])
                &&& pending.keys[ids[i]].authorized.contains(sae)
                &&& now_ns < pending.keys[ids[i]].deadline_ns
            } by {
                if i < n {
                    assert(init[i] == ids[i]);
                }
            }
        }
    }
}

/// A session key that cannot be decrypted is refused, and nothing is kept of it: one
/// that names no transport key, or one that is not there, leaves the transport keys
/// alone; one that is longer than its transport key uses it up.
pub proof fn received_key_without_its_transport_key_is_refused(
    s: ServiceView,
    peer: Seq<char>,
    body: Etsi020ExtKeyContainer,
    now_ns: u64,
)
    requires
        body.keys@.len() == 1,
    ensures
        ({
            let k = body.keys@[0]@;
            let dec = s.pool.of(peer).dec.keys;
            let (st, kept) = take_in_all(
                s.intake(peer),
                consignment(peer, body),
                wrapped(body.keys@),
                now_ns,
            );
            let after = s.with_intake(peer, st);
            &&& k.transport_key_id is None ==> kept is Err && kept->Err_0 is BadRequest
                && after.pending == s.pending && after.pool.of(peer) == s.pool.of(peer)
            &&& k.transport_key_id is Some && (forall|j: int|
                0 <= j < dec.len() ==> (#[trigger] dec[j]).id != k.transport_key_id->0) ==> kept
                == Err::<Seq<Seq<char>>, ErrorView>(
                ErrorView::TransportKeyMissing { peer, key_id: k.transport_key_id->0 },
            ) && after.pending == s.pending && after.pool.of(peer) == s.pool.of(peer)
            &&& k.transport_key_id is Some && (exists|i: int|
                0 <= i < dec.len() && (#[trigger] dec[i]).id == k.transport_key_id->0) && (forall|
                j: int,
            |
                0 <= j < dec.len() ==> (#[trigger] dec[j]).bytes.len() < k.value.len()) ==> kept is Err
                && kept->Err_0 is Crypto && after.pending == s.pending && after.pool.of(
                peer,
            ).dec.keys.len() == dec.len() - 1
            &&& after.flow.of(peer).recv_corrupt == s.flow.of(peer).recv_corrupt || kept is Ok
        }),
{
    let keys = wrapped(body.keys@);
    let k = body.keys@[0]@;
    let dec = s.pool.of(peer).dec.keys;
    assert(keys.len() == 1 && keys.last() == k);
    assert(keys.drop_last() =~= Seq::<WrappedKey>::empty());
    reveal_with_fuel(take_in_all, 2);
    if let Some(t) = k.transport_key_id {
        lemma_position(dec, t);
    }
    let (st, kept) = take_in_all(s.intake(peer), consignment(peer, body), keys, now_ns);
    let after = s.with_intake(peer, st);
    assert(after.pool.of(peer) =~= s.pool.of(peer).with_dec(st.dec));
}

/// What was taken in stays, even if a later key of the envelope cannot be.
pub proof fn taken_keys_stay(
    st: Intake,
    c: Consignment,
    keys: Seq<WrappedKey>,
    now_ns: u64,
    i: int,
    id: Seq<char>,
)
    requires
        0 <= i <= keys.len(),
        take_in_all(st, c, keys.take(i), now_ns).0.pending.keys.dom().contains(id),
    ensures
        take_in_all(st, c, keys, now_ns).0.pending.keys.dom().contains(id),
    decreases keys.len() - i,
{
    if i == keys.len() {
        assert(keys.take(i) =~= keys);
    } else {
        assert(keys.take(i + 1).drop_last() =~= keys.take(i));
        taken_keys_stay(st, c, keys, now_ns, i + 1, id);
    }
}

/// Keys that an application took before one that it could not have are used up for it
/// all the same, and those after it are left.
pub proof fn keys_before_a_failure_are_used_up(
    pending: PendingKeys,
    sae: Seq<char>,
    ids: Seq<Seq<char>>,
    now_ns: u64,
    j: int,
)
    requires
        forall|a: int, b: int| 0 <= a < b < ids.len() ==> #[trigger] ids[a] != #[trigger] ids[b],
        0 <= j < ids.len(),
        forall|a: int|
            #![trigger ids[a]]
            0 <= a < j ==> {
                &&& pending.keys.dom().contains(ids[a])
                &&& pending.keys[ids[a]].authorized.contains(sae)
                &&& now_ns < pending.keys[ids[a]].deadline_ns
            },
        !(pending.keys.dom().contains(ids[j]) && pending.keys[ids[j]].authorized.contains(sae)
            && now_ns < pending.keys[ids[j]].deadline_ns),
    ensures
        ({
            let (after, r) = take_all(pending, sae, ids, now_ns);
            &&& r is Err
            &&& forall|a: int|
                #![trigger ids[a]]
                0 <= a < j && after.keys.dom().contains(ids[a])
                    ==> !after.keys[ids[a]].authorized.contains(sae)
            &&& forall|a: int|
                #![trigger ids[a]]
                j <= a < ids.len() ==> after.keys.dom().contains(ids[a])
                    == pending.keys.dom().contains(ids[a]) && after.keys[ids[a]]
                    == pending.keys[ids[a]]
            &&& pending.keys.dom().contains(ids[j]) && pending.keys[ids[j]].authorized.contains(sae)
                ==> r->Err_0 is KeyExpired
            &&& !(pending.keys.dom().contains(ids[j]) && pending.keys[ids[j]].authorized.contains(
                sae,
            )) ==> r->Err_0 == (ErrorView::KeyNotAuthorized { sae })
        }),
{
    let good = ids.take(j);
    assert forall|a: int, b: int| 0 <= a < b < good.len() implies #[trigger] good[a]
        != #[trigger] good[b] by {
        assert(ids[a] != ids[b]);
    }
    assert forall|a: int| #![trigger good[a]] 0 <= a < good.len() implies {
        &&& pending.keys.dom().contains(good[a])
        &&& pending.keys[good[a]].authorized.contains(sae)
        &&& now_ns < pending.keys[good[a]].deadline_ns
    } by {
        assert(good[a] == ids[a]);
    }
    named_keys_are_handed_out_in_order(pending, sae, good, now_ns);
    let mid = take_all(pending, sae, good, now_ns).0;
    assert forall|a: int| #![trigger ids[a]] j <= a < ids.len() implies !good.contains(ids[a]) by {
        if good.contains(ids[a]) {
            let b = choose|b: int| 0 <= b < good.len() && good[b] == ids[a];
            assert(ids[b] != ids[a]);
        }
    }
    assert(!good.contains(ids[j]));
    assert(mid.keys.dom().contains(ids[j]) == pending.keys.dom().contains(ids[j]) && mid.keys[ids[j]]
        == pending.keys[ids[j]]);
    assert(ids.take(j + 1).drop_last() =~= good);
    assert(take_all(pending, sae, ids.take(j + 1), now_ns).1 is Err);
    assert(take_all(pending, sae, ids.take(j + 1), now_ns).0 == mid);
    lemma_taking_stops(pending, sae, ids, now_ns, j + 1);
    let after = take_all(pending, sae, ids, now_ns).0;
    assert(after == mid);
    assert forall|a: int| #![trigger ids[a]] 0 <= a < j && after.keys.dom().contains(ids[a]) implies !after.keys[ids[a]].authorized.contains(
        sae,
    ) by {
        assert(good[a] == ids[a]);
    }
    assert forall|a: int| #![trigger ids[a]] j <= a < ids.len() implies after.keys.dom().contains(
        ids[a],
    ) == pending.keys.dom().contains(ids[a]) && after.keys[ids[a]] == pending.keys[ids[a]] by {
        assert(!good.contains(ids[a]));
        assert(mid.keys.dom().contains(ids[a]) == pending.keys.dom().contains(ids[a]));
    }
}

proof fn lemma_taking_stops(
    pending: PendingKeys,
    sae: Seq<char>,
    ids: Seq<Seq<char>>,
    now_ns: u64,
    i: int,
)
    requires
        0 <= i <= ids.len(),
        take_all(pending, sae, ids.take(i), now_ns).1 is Err,
    ensures
        take_all(pending, sae, ids, now_ns) == take_all(pending, sae, ids.take(i), now_ns),
    decreases ids.len() - i,
{
    if i == ids.len() {
        assert(ids.take(i) =~= ids);
    } else {
        assert(ids.take(i + 1).drop_last() =~= ids.take(i));
        lemma_taking_stops(pending, sae, ids, now_ns, i + 1);
    }
}

/// Nodes are served in turn: once the keys of one node are used, those of every node
/// before it are, one for each session key; what was used is not given back, whether
/// the distribution succeeds or not.
pub proof fn used_transport_keys_stay_used(
    s: ServiceView,
    master: Seq<char>,
    local: Seq<Seq<char>>,
    groups: Seq<GroupView>,
    asked: Option<SecurityLevel>,
    session: Seq<SessionView>,
    now_ns: u64,
    k: int,
    i: int,
)
    requires
        0 <= k < i < groups.len(),
        forall|a: int, b: int|
            0 <= a < b < groups.len() ==> (#[trigger] groups[a]).node != (#[trigger] groups[b]).node,
        ({
            let after = distribution(s, master, local, groups, asked, session, now_ns).0;
            after.pool.of(groups[i].node) != s.pool.of(groups[i].node)
        }),
    ensures
        ({
            let after = distribution(s, master, local, groups, asked, session, now_ns).0;
            let had = s.pool.of(groups[k].node);
            let has = after.pool.of(groups[k].node);
            had.qkd.keys.len() + had.pqc.keys.len() == has.qkd.keys.len() + has.pqc.keys.len()
                + session.len()
        }),
{
    lemma_earlier_nodes_are_used(s.cfg, s.pool, master, asked, groups, session, k, i);
}

proof fn lemma_earlier_nodes_are_used(
    cfg: DkmsConfig,
    pool: PoolView,
    master: Seq<char>,
    asked: Option<SecurityLevel>,
    groups: Seq<GroupView>,
    session: Seq<SessionView>,
    k: int,
    i: int,
)
    requires
        0 <= k < i < groups.len(),
        forall|a: int, b: int|
            0 <= a < b < groups.len() ==> (#[trigger] groups[a]).node != (#[trigger] groups[b]).node,
        envelopes(cfg, pool, master, asked, groups, session).0.of(groups[i].node) != pool.of(
            groups[i].node,
        ),
    ensures
        ({
            let after = envelopes(cfg, pool, master, asked, groups, session).0;
            let had = pool.of(groups[k].node);
            let has = after.of(groups[k].node);
            had.qkd.keys.len() + had.pqc.keys.len() == has.qkd.keys.len() + has.pqc.keys.len()
                + session.len()
        }),
    decreases groups.len(),
{
    let init = groups.drop_last();
    let n = init.len() as int;
    assert forall|a: int, b: int| 0 <= a < b < init.len() implies (#[trigger] init[a]).node != (
    #[trigger] init[b]).node by {
        assert(groups[a].node != groups[b].node);
    }
    let (mid, done) = envelopes(cfg, pool, master, asked, init, session);
    if i < n {
        assert(groups[i].node != groups[n].node);
        assert(groups[k].node != groups[n].node);
        lemma_earlier_nodes_are_used(cfg, pool, master, asked, init, session, k, i);
    } else {
        assert forall|a: int| 0 <= a < init.len() implies (#[trigger] init[a]).node
            != groups[n].node by {
            assert(groups[a].node != groups[n].node);
        }
        lemma_envelopes_use_up(cfg, pool, master, asked, init, session, groups[n].node);
        assert(done is Ok);
        lemma_envelopes_use_up(cfg, pool, master, asked, init, session, groups[k].node);
        assert(done->Ok_0[k].node == init[k].node);
        lemma_wrapping_uses_up(
            pool.of(groups[k].node),
            groups[k].node,
            effective_level(cfg, asked, groups[k].node),
            session,
        );
        assert(groups[k].node != groups[n].node);
    }
}

/// A node that is short of transport keys loses those that it has: they were used for
/// the session keys that they sufficed for.
pub proof fn short_stock_is_used_up(
    s: ServiceView,
    master: Seq<char>,
    local: Seq<Seq<char>>,
    group: GroupView,
    session: Seq<SessionView>,
    now_ns: u64,
    level: SecurityLevel,
)
    requires
        ({
            let keys = s.pool.of(group.node);
            &&& keys.qkd.keys.len() + (if level == SecurityLevel::StrictQkd {
                0
            } else {
                keys.pqc.keys.len() as int
            }) < session.len()
            &&& forall|a: int|
                0 <= a < keys.qkd.keys.len() ==> (#[trigger] keys.qkd.keys[a]).bytes.len() >= 32
            &&& forall|a: int|
                0 <= a < keys.pqc.keys.len() ==> (#[trigger] keys.pqc.keys[a]).bytes.len() >= 32
            &&& forall|a: int, j: int|
                0 <= a < keys.qkd.keys.len() && 0 <= j < session.len()
                    ==> (#[trigger] keys.qkd.keys[a]).bytes.len() >= (
                #[trigger] session[j]).bytes.len()
            &&& forall|a: int, j: int|
                0 <= a < keys.pqc.keys.len() && 0 <= j < session.len()
                    ==> (#[trigger] keys.pqc.keys[a]).bytes.len() >= (
                #[trigger] session[j]).bytes.len()
        }),
    ensures
        ({
            let (after, made) = distribution(
                s,
                master,
                local,
                seq![group],
                Some(level),
                session,
                now_ns,
            );
            &&& made == Err::<Seq<OutgoingView>, ErrorView>(
                ErrorView::TransportBufferEmpty { peer: group.node },
            )
            &&& after.pool.of(group.node).qkd.keys.len() == 0
            &&& level != SecurityLevel::StrictQkd ==> after.pool.of(group.node).pqc.keys.len() == 0
        }),
{
    let keys = s.pool.of(group.node);
    lemma_wrapping_succeeds(keys, group.node, level, session);
    lemma_short_stock(keys, group.node, level, session);
    let groups = seq![group];
    assert(groups.drop_last() =~= Seq::<GroupView>::empty());
    assert(groups.last() == group);
    reveal_with_fuel(envelopes, 2);
}

proof fn lemma_short_stock(
    keys: PeerKeys,
    peer: Seq<char>,
    level: SecurityLevel,
    session: Seq<SessionView>,
)
    requires
        forall|a: int, j: int|
            0 <= a < keys.qkd.keys.len() && 0 <= j < session.len()
                ==> (#[trigger] keys.qkd.keys[a]).bytes.len() >= (#[trigger] session[j]).bytes.len(),
        forall|a: int, j: int|
            0 <= a < keys.pqc.keys.len() && 0 <= j < session.len()
                ==> (#[trigger] keys.pqc.keys[a]).bytes.len() >= (#[trigger] session[j]).bytes.len(),
        forall|a: int|
            0 <= a < keys.qkd.keys.len() ==> (#[trigger] keys.qkd.keys[a]).bytes.len() >= 32,
        forall|a: int|
            0 <= a < keys.pqc.keys.len() ==> (#[trigger] keys.pqc.keys[a]).bytes.len() >= 32,
        keys.qkd.keys.len() + (if level == SecurityLevel::StrictQkd {
            0
        } else {
            keys.pqc.keys.len() as int
        }) < session.len(),
    ensures
        ({
            let left = wrap_all(keys, peer, level.prefs(), session).0;
            &&& left.qkd.keys.len() == 0
            &&& level != SecurityLevel::StrictQkd ==> left.pqc.keys.len() == 0
        }),
    decreases session.len(),
{
    let init = session.drop_last();
    assert forall|a: int, j: int| 0 <= a < keys.qkd.keys.len() && 0 <= j < init.len() implies (
    #[trigger] keys.qkd.keys[a]).bytes.len() >= (#[trigger] init[j]).bytes.len() by {
        assert(session[j] == init[j]);
    }
    assert forall|a: int, j: int| 0 <= a < keys.pqc.keys.len() && 0 <= j < init.len() implies (
    #[trigger] keys.pqc.keys[a]).bytes.len() >= (#[trigger] init[j]).bytes.len() by {
        assert(session[j] == init[j]);
    }
    lemma_wrapping_succeeds(keys, peer, level, init);
    lemma_wrapping_uses_up(keys, peer, level, init);
    let (mid, done) = wrap_all(keys, peer, level.prefs(), init);
    if done is Err {
        lemma_short_stock(keys, peer, level, init);
    } else {
        lemma_grade_taken(level, mid.qkd.keys.len() > 0, mid.pqc.keys.len() > 0);
    }
}

} // verus!
