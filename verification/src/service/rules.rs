//! What requests, failures and deliveries come to.
use crate::ack_pending::bucket_of;
use crate::buffers::{KeyView, PoolView};
use crate::e2e::E2eErrorView;
use crate::error::ErrorView;
use crate::etsi::{listed_names, Etsi014KeyRequest};
use crate::generator::GeneratorView;
use crate::names::{lemma_ordered, listed_in_order, name_views};
use crate::orr::{HDR_ACK_ENDPOINT, HDR_INCARNATION, HDR_KEY_ID, HDR_KEY_SIZE_BITS, HDR_SAE_ORIGIN};
use crate::pending::PendingKeys;
use crate::security::SecurityLevel;
use crate::security_level::asked_level;
use crate::service::delivery::{header_text, malformed, DeliveryView, Forgotten};
use crate::service::distribution::{resynced, withdrawn, AdmissionStep};
use crate::service::planning::{
    first_lacking, grouped, lacks_path, members, remote_nodes, target_set, EncPlan,
};
use crate::service::{stale_peer, ServiceView};
use crate::text::parsed_number;
use crate::token_bucket::{cost_is_what_the_keys_take, cost_of, tokens_are_counted_exactly};
use vstd::prelude::*;

verus! {

proof fn lemma_first_lacking(
    cfg: crate::config::DkmsConfig,
    gen: Option<GeneratorView>,
    level: Option<SecurityLevel>,
    peers: Seq<Seq<char>>,
)
    ensures
        first_lacking(cfg, gen, level, peers) is None <==> forall|i: int|
            0 <= i < peers.len() ==> !lacks_path(cfg, gen, level, #[trigger] peers[i]),
        first_lacking(cfg, gen, level, peers) matches Some(p) ==> peers.contains(p) && lacks_path(
            cfg,
            gen,
            level,
            p,
        ),
    decreases peers.len(),
{
    if peers.len() > 0 {
        let rest = peers.drop_first();
        lemma_first_lacking(cfg, gen, level, rest);
        if !lacks_path(cfg, gen, level, peers[0]) {
            if first_lacking(cfg, gen, level, rest) is None {
                assert forall|i: int| 0 <= i < peers.len() implies !lacks_path(
                    cfg,
                    gen,
                    level,
                    #[trigger] peers[i],
                ) by {
                    if i > 0 {
                        assert(rest[i - 1] == peers[i]);
                    }
                }
            } else {
                let p = first_lacking(cfg, gen, level, rest)->0;
                let j = choose|j: int| 0 <= j < rest.len() && rest[j] == p;
                assert(peers[j + 1] == p);
            }
        }
    }
}

/// A request is planned exactly when its level can be read, it needs no more other
/// nodes than may be asked at a time, and none of those that are to be served with
/// QKD keys alone, by what the request asks or else by what is configured, is known
/// to have no QKD path.
pub proof fn strict_requests_need_a_path(
    s: ServiceView,
    body: Etsi014KeyRequest,
    nodes: Seq<Seq<char>>,
    remote: Seq<Seq<char>>,
)
    requires
        listed_in_order(remote, nodes.to_set().remove(s.cfg.node_id@)),
    ensures
        s.plan_violation(body, nodes) is None <==> {
            &&& remote.len() <= s.cfg.request.max_concurrent_peers
            &&& asked_level(body) is Ok
            &&& forall|i: int|
                0 <= i < nodes.len() && #[trigger] nodes[i] != s.cfg.node_id@ ==> {
                    let strict = match asked_level(body)->Ok_0 {
                        Some(l) => l == SecurityLevel::StrictQkd,
                        None => if s.cfg.peers@.dom().contains(nodes[i])
                            && s.cfg.peers@[nodes[i]].security_level is Some {
                            s.cfg.peers@[nodes[i]].security_level == Some(SecurityLevel::StrictQkd)
                        } else {
                            s.cfg.default_security_level == SecurityLevel::StrictQkd
                        },
                    };
                    let no_path = s.gen is Some && s.gen->0.qkd.contains_pair(nodes[i], false);
                    !(strict && no_path)
                }
        },
{
    let me = s.cfg.node_id@;
    let set = nodes.to_set().remove(me);
    lemma_ordered(remote, set);
    assert(remote == remote_nodes(nodes, me));
    if asked_level(body) is Ok {
        let level = asked_level(body)->Ok_0;
        lemma_first_lacking(s.cfg, s.gen, level, remote);
        assert forall|i: int| 0 <= i < nodes.len() && #[trigger] nodes[i] != me implies exists|j: int|
            0 <= j < remote.len() && #[trigger] remote[j] == nodes[i] by {
            assert(nodes.contains(nodes[i]));
            assert(set.contains(nodes[i]));
            assert(remote.to_set().contains(nodes[i]));
        }
        assert forall|j: int| 0 <= j < remote.len() implies exists|i: int|
            0 <= i < nodes.len() && #[trigger] nodes[i] == #[trigger] remote[j] && nodes[i] != me by {
            assert(remote.to_set().contains(remote[j]));
            assert(set.contains(remote[j]));
            assert(nodes.contains(remote[j]));
        }
    }
}

/// An application is told through its own node alone: whoever is in a node's group
/// is a target that belongs to the node.
pub proof fn no_target_is_in_another_group(
    targets: Seq<Seq<char>>,
    nodes: Seq<Seq<char>>,
    node: Seq<char>,
    a: int,
)
    requires
        targets.len() == nodes.len(),
        0 <= a < members(targets, nodes, node).len(),
    ensures
        exists|i: int|
            0 <= i < targets.len() && #[trigger] targets[i] == members(targets, nodes, node)[a]
                && nodes[i] == node,
    decreases targets.len(),
{
    let before = members(targets.drop_last(), nodes.drop_last(), node);
    if a < before.len() {
        no_target_is_in_another_group(targets.drop_last(), nodes.drop_last(), node, a);
        let i = choose|i: int|
            0 <= i < targets.len() - 1 && #[trigger] targets.drop_last()[i] == before[a]
                && nodes.drop_last()[i] == node;
        assert(targets[i] == before[a]);
    } else {
        assert(targets[targets.len() - 1] == members(targets, nodes, node)[a]);
    }
}

/// Each other node that a target belongs to has one group, this node has none, and
/// nobody else is told.
pub proof fn each_other_node_has_one_group(
    targets: Seq<Seq<char>>,
    nodes: Seq<Seq<char>>,
    me: Seq<char>,
    remote: Seq<Seq<char>>,
)
    requires
        targets.len() == nodes.len(),
        listed_in_order(remote, nodes.to_set().remove(me)),
    ensures
        ({
            let groups = grouped(targets, nodes, remote_nodes(nodes, me));
            &&& forall|a: int, b: int|
                0 <= a < b < groups.len() ==> (#[trigger] groups[a]).node != (#[trigger] groups[b]).node
            &&& forall|a: int|
                0 <= a < groups.len() ==> (#[trigger] groups[a]).node != me && nodes.contains(
                    groups[a].node,
                )
            &&& forall|i: int|
                0 <= i < nodes.len() && #[trigger] nodes[i] != me ==> exists|a: int|
                    0 <= a < groups.len() && (#[trigger] groups[a]).node == nodes[i]
                        && groups[a].saes.contains(targets[i])
        }),
{
    let set = nodes.to_set().remove(me);
    lemma_ordered(remote, set);
    assert(remote == remote_nodes(nodes, me));
    let groups = grouped(targets, nodes, remote);
    assert(groups.len() == remote.len());
    assert forall|a: int, b: int| 0 <= a < b < groups.len() implies (#[trigger] groups[a]).node != (
    #[trigger] groups[b]).node by {
        assert(remote[a] != remote[b]);
    }
    assert forall|a: int| 0 <= a < groups.len() implies (#[trigger] groups[a]).node != me
        && nodes.contains(groups[a].node) by {
        assert(remote.to_set().contains(remote[a]));
        assert(set.contains(remote[a]));
    }
    assert forall|i: int| 0 <= i < nodes.len() && #[trigger] nodes[i] != me implies exists|a: int|
        0 <= a < groups.len() && (#[trigger] groups[a]).node == nodes[i] && groups[a].saes.contains(
            targets[i],
        ) by {
        assert(nodes.contains(nodes[i]));
        assert(set.contains(nodes[i]));
        assert(remote.to_set().contains(nodes[i]));
        let a = choose|a: int| 0 <= a < remote.len() && remote[a] == nodes[i];
        crate::service::planning::every_target_has_a_group(targets, nodes, me, i);
        assert(groups[a].node == nodes[i]);
    }
}

/// Keys are asked for whom the request is addressed to and for whom it adds in its
/// body, each of them, and without a header for nobody else.
pub proof fn everyone_that_is_named_is_a_target(
    slave: Seq<char>,
    body: Etsi014KeyRequest,
    extra: Option<Seq<char>>,
    sae: Seq<char>,
)
    ensures
        target_set(slave, body, extra).contains(slave),
        body.additional_slave_sae_ids matches Some(v) ==> forall|i: int|
            0 <= i < v@.len() ==> target_set(slave, body, extra).contains((#[trigger] v@[i])@),
        extra is None && target_set(slave, body, extra).contains(sae) && sae != slave ==> (
        body.additional_slave_sae_ids matches Some(v) && exists|i: int|
            0 <= i < v@.len() && (#[trigger] v@[i])@ == sae),
{
    if let Some(v) = body.additional_slave_sae_ids {
        let names = name_views(v@);
        assert forall|i: int| 0 <= i < v@.len() implies target_set(slave, body, extra).contains(
            (#[trigger] v@[i])@,
        ) by {
            assert(names[i] == v@[i]@);
            assert(names.to_set().contains(names[i]));
        }
        if names.to_set().contains(sae) {
            let i = choose|i: int| 0 <= i < names.len() && names[i] == sae;
            assert(v@[i]@ == sae);
        }
    }
}

/// A plan costs its keys, in tokens begun, for each other node; what stays at this
/// node costs nothing.
pub proof fn plan_costs_its_keys_for_each_node(
    s: ServiceView,
    master: Seq<char>,
    plan: EncPlan,
    now_ns: u64,
    units: nat,
)
    requires
        s.buckets.of(master, now_ns).level <= s.buckets.of(master, now_ns).burst * 1_000_000_000,
        s.cfg.sae.token_unit_bytes > 0,
        plan.size_bytes <= units * s.cfg.sae.token_unit_bytes < plan.size_bytes
            + s.cfg.sae.token_unit_bytes,
        units * plan.number * plan.remote@.len() <= s.buckets.of(master, now_ns).tokens(),
    ensures
        ({
            let cost = units * plan.number * plan.remote@.len();
            let after = s.charged(master, plan, now_ns);
            &&& after.buckets.of(master, now_ns).tokens() == s.buckets.of(master, now_ns).tokens()
                - cost
            &&& plan.remote@.len() == 0 ==> after.buckets.of(master, now_ns).tokens()
                == s.buckets.of(master, now_ns).tokens()
            &&& after.pool == s.pool && after.pending == s.pending
        }),
{
    let unit = s.cfg.sae.token_unit_bytes as nat;
    let had = s.buckets.of(master, now_ns);
    cost_is_what_the_keys_take(
        plan.size_bytes as nat,
        plan.number as nat,
        plan.remote@.len(),
        unit,
    );
    let u = cost_of(plan.size_bytes as nat, 1, 1, unit);
    assert(u == units) by (nonlinear_arith)
        requires
            plan.size_bytes <= units * unit < plan.size_bytes + unit,
            plan.size_bytes <= u * unit < plan.size_bytes + unit,
            unit > 0,
    ;
    let cost = s.plan_cost(plan);
    assert(had.tokens() <= had.burst);
    assert(cost == units * plan.number * plan.remote@.len());
    tokens_are_counted_exactly(had, cost, 0);
    let after = s.charged(master, plan, now_ns);
    assert(after.buckets.levels[master] == had.spent(cost));
    assert(units * plan.number * 0 == 0) by (nonlinear_arith);
}

/// Where a peer's refusal shows that it has lost transport keys, none is left that
/// would be encrypted with, of any grade; what it encrypts with stays, and so do the
/// keys of every peer that did not say so.
pub proof fn lost_transport_keys_are_dropped(
    pool: PoolView,
    failures: Seq<ErrorView>,
    peer: Seq<char>,
)
    ensures
        ({
            let after = resynced(pool, failures);
            let lost = exists|i: int|
                0 <= i < failures.len() && stale_peer(#[trigger] failures[i]) == Some(peer);
            &&& lost ==> {
                &&& after.of(peer).qkd.keys.len() == 0
                &&& after.of(peer).pqc.keys.len() == 0
                &&& after.of(peer).dec == pool.of(peer).dec
            }
            &&& !lost ==> after.of(peer) == pool.of(peer)
        }),
    decreases failures.len(),
{
    if failures.len() > 0 {
        let init = failures.drop_last();
        lost_transport_keys_are_dropped(pool, init, peer);
        let n = init.len() as int;
        assert(failures[n] == failures.last());
        if exists|i: int| 0 <= i < init.len() && stale_peer(#[trigger] init[i]) == Some(peer) {
            let i = choose|i: int|
                0 <= i < init.len() && stale_peer(#[trigger] init[i]) == Some(peer);
            assert(stale_peer(failures[i]) == Some(peer));
        }
        if exists|i: int| 0 <= i < failures.len() && stale_peer(#[trigger] failures[i]) == Some(peer) {
            let i = choose|i: int|
                0 <= i < failures.len() && stale_peer(#[trigger] failures[i]) == Some(peer);
            if i < n {
                assert(stale_peer(init[i]) == Some(peer));
            }
        }
    }
}

/// Withdrawing keys takes those away and no others.
pub proof fn only_withdrawn_keys_go(pending: PendingKeys, ids: Seq<Seq<char>>, id: Seq<char>)
    ensures
        ({
            let after = withdrawn(pending, ids);
            &&& after.keys.dom().contains(id) <==> pending.keys.dom().contains(id) && !ids.contains(id)
            &&& after.keys.dom().contains(id) ==> after.keys[id] == pending.keys[id]
            &&& after.default_ttl_ns == pending.default_ttl_ns
        }),
    decreases ids.len(),
{
    if ids.len() > 0 {
        let init = ids.drop_last();
        only_withdrawn_keys_go(pending, init, id);
        assert(ids[init.len() as int] == ids.last());
        if init.contains(id) {
            let i = choose|i: int| 0 <= i < init.len() && init[i] == id;
            assert(ids[i] == id);
        }
        if ids.contains(id) {
            let i = choose|i: int| 0 <= i < ids.len() && ids[i] == id;
            if i < init.len() {
                assert(init[i] == id);
            }
        }
    }
}

/// A distribution that every node took is left as it is. One that failed gives the
/// tokens back where the application's requests are counted as one, its cost for each
/// node that it was for, and takes no tokens otherwise.
pub proof fn settling_gives_back_only_after_a_failure(
    s: ServiceView,
    master: Seq<char>,
    plan: EncPlan,
    step: AdmissionStep,
    ids: Seq<Seq<char>>,
    failures: Seq<ErrorView>,
    now_ns: u64,
)
    requires
        s.buckets.of(master, now_ns).level <= s.buckets.of(master, now_ns).burst * 1_000_000_000,
        plan.cost_per_peer * plan.remote@.len() <= u64::MAX,
    ensures
        ({
            let after = s.settled(master, plan, step, ids, failures, now_ns);
            let had = s.buckets.of(master, now_ns);
            let n = if plan.remote@.len() == 0 {
                1
            } else {
                plan.remote@.len() as int
            };
            let grown = had.tokens() + plan.cost_per_peer * n;
            &&& failures.len() == 0 ==> after == s
            &&& !(step is PerSae) ==> after.buckets == s.buckets
            &&& failures.len() > 0 && step is PerSae ==> after.buckets.of(master, now_ns).tokens() == (
            if grown > had.burst {
                had.burst as int
            } else {
                grown
            })
            &&& after.gen == s.gen && after.flow == s.flow && after.acks == s.acks
        }),
{
    let had = s.buckets.of(master, now_ns);
    let amount = crate::service::distribution::refund_of(plan);
    assert(plan.cost_per_peer * 1 == plan.cost_per_peer);
    tokens_are_counted_exactly(had, 0, amount);
    if failures.len() > 0 && step is PerSae {
        let after = s.settled(master, plan, step, ids, failures, now_ns);
        assert(after.buckets.levels[master] == had.refunded(amount));
    }
}

/// A delivery is looked at if it says which key it is and who sent it, and if its
/// length is the one that it announces: as many bytes as hold so many bits.
pub proof fn deliveries_have_their_measure(h: Map<Seq<char>, Seq<char>>, payload_len: nat)
    ensures
        malformed(h, payload_len) is None <==> {
            &&& h.dom().contains(HDR_KEY_ID@)
            &&& h.dom().contains(HDR_SAE_ORIGIN@)
            &&& h.dom().contains(HDR_KEY_SIZE_BITS@) ==> (parsed_number(
                h[HDR_KEY_SIZE_BITS@],
                10,
                u32::MAX as nat,
            ) matches Some(bits) ==> bits <= payload_len * 8 < bits + 8)
        },
{
}

/// A peer that was restarted has lost all that was shared with it, and so it is
/// forgotten here: nothing is left to encrypt with, to decrypt with or to be
/// acknowledged, at most once in half a minute. A run that goes on, or that is the
/// first one, changes none of that, and the keys of other peers are never touched.
pub proof fn restarted_peer_starts_afresh(
    s: ServiceView,
    peer: Seq<char>,
    incarnation: Seq<char>,
    now_ns: u64,
    other: Seq<char>,
)
    requires
        other != peer,
    ensures
        ({
            let after = s.incarnation_noted(peer, Some(incarnation), now_ns);
            let restarted = {
                &&& s.incarnations.seen.dom().contains(peer)
                &&& s.incarnations.seen[peer] != incarnation
                &&& !s.incarnations.last_wipe.dom().contains(peer) || now_ns
                    - s.incarnations.last_wipe[peer] >= 30_000_000_000
            };
            &&& restarted ==> {
                &&& after.pool.of(peer).qkd.keys.len() == 0
                &&& after.pool.of(peer).pqc.keys.len() == 0
                &&& after.pool.of(peer).dec.keys.len() == 0
                &&& after.gen matches Some(g) ==> !g.pending.dom().contains(peer)
            }
            &&& !restarted ==> after.pool == s.pool && after.gen == s.gen
            &&& after.incarnations.seen.contains_pair(peer, incarnation)
            &&& after.pool.of(other) == s.pool.of(other)
            &&& after.gen is Some == s.gen is Some
            &&& s.gen is Some ==> bucket_of(after.gen->0.pending, other) == bucket_of(
                s.gen->0.pending,
                other,
            )
            &&& after.pending == s.pending
            &&& s.incarnation_noted(peer, None, now_ns) == s
        }),
{
}

/// What storing a key does to the counters of deliveries.
proof fn lemma_stored_is_counted(
    s: ServiceView,
    source: Seq<char>,
    header: Map<Seq<char>, Seq<char>>,
    key_id: Seq<char>,
    key: Seq<u8>,
    now_ns: u64,
    other: Seq<char>,
)
    requires
        other != source,
        s.flow.of(source).recv < u64::MAX,
    ensures
        ({
            let after = s.stored(source, header, key_id, key, now_ns).0;
            let f = s.flow.of(source);
            let g = after.flow.of(source);
            &&& g.recv == f.recv + 1
            &&& g.recv_replayed == f.recv_replayed
            &&& g.recv_corrupt == f.recv_corrupt
            &&& g.recv_no_epoch == f.recv_no_epoch
            &&& after.flow.of(other) == s.flow.of(other)
        }),
{
    let noted = s.incarnation_noted(source, header_text(header, HDR_INCARNATION@), now_ns);
    assert(noted.flow == s.flow);
    let kept = noted.key_received(source, KeyView { id: key_id, bytes: key });
    assert(kept.flow.of(other) == s.flow.of(other));
    assert(kept.flow.of(source).recv == s.flow.of(source).recv + 1);
    let after = kept.acknowledging(source, header_text(header, HDR_ACK_ENDPOINT@), key_id).0;
    assert(after.flow.of(source).recv == kept.flow.of(source).recv);
}

/// Every delivery is counted once and for the peer that sent it, by what became of
/// it: as received, replayed, corrupt or of an unknown epoch. One that is malformed is
/// refused and changes nothing.
pub proof fn deliveries_are_counted_by_what_became_of_them(
    s: ServiceView,
    app: Map<Seq<char>, Seq<char>>,
    payload: Seq<u8>,
    now_ns: u64,
    other: Seq<char>,
)
    requires
        other != app[HDR_SAE_ORIGIN@],
        s.flow.of(app[HDR_SAE_ORIGIN@]).recv < u64::MAX,
        s.flow.of(app[HDR_SAE_ORIGIN@]).recv_replayed < u64::MAX,
        s.flow.of(app[HDR_SAE_ORIGIN@]).recv_corrupt < u64::MAX,
        s.flow.of(app[HDR_SAE_ORIGIN@]).recv_no_epoch < u64::MAX,
    ensures
        ({
            let (after, r) = s.buffer_delivered(app, payload, now_ns);
            let f = s.flow.of(app[HDR_SAE_ORIGIN@]);
            let g = after.flow.of(app[HDR_SAE_ORIGIN@]);
            &&& r is Err <==> malformed(app, payload.len()) is Some
            &&& r is Err ==> after == s
            &&& r matches Ok(d) ==> {
                &&& g.recv == f.recv + (if d is Stored {
                    1int
                } else {
                    0
                })
                &&& g.recv_replayed == f.recv_replayed + (if d is Replayed {
                    1int
                } else {
                    0
                })
                &&& g.recv_corrupt == f.recv_corrupt + (if d is Corrupt {
                    1int
                } else {
                    0
                })
                &&& g.recv_no_epoch == f.recv_no_epoch + (if d is UnknownEpoch {
                    1int
                } else {
                    0
                })
                &&& !(d is NotForUs)
            }
            &&& after.flow.of(other) == s.flow.of(other)
        }),
{
    let source = app[HDR_SAE_ORIGIN@];
    let key_id = app[HDR_KEY_ID@];
    let (opened, e2e) = s.e2e.opened(source, app, key_id, payload, now_ns);
    if let Ok(key) = opened {
        lemma_stored_is_counted(
            ServiceView { e2e, ..s },
            source,
            app,
            key_id,
            key,
            now_ns,
            other,
        );
    }
}

/// A delivery is answered by what opening it gave: a key that opens is stored, a
/// replay is called one, an epoch that is not held is asked for, and all else is
/// corrupt.
pub proof fn deliveries_are_answered_by_what_opening_gave(
    s: ServiceView,
    app: Map<Seq<char>, Seq<char>>,
    payload: Seq<u8>,
    now_ns: u64,
)
    requires
        malformed(app, payload.len()) is None,
    ensures
        ({
            let opened = s.e2e.opened(
                app[HDR_SAE_ORIGIN@],
                app,
                app[HDR_KEY_ID@],
                payload,
                now_ns,
            ).0;
            let r = s.buffer_delivered(app, payload, now_ns).1;
            &&& r is Ok
            &&& opened is Ok <==> r->Ok_0 is Stored
            &&& opened is Err && opened->Err_0 is Replay <==> r->Ok_0 is Replayed
            &&& opened is Err && opened->Err_0 is UnknownEpoch <==> r->Ok_0 is UnknownEpoch
            &&& opened matches Err(E2eErrorView::UnknownEpoch { epoch, .. }) ==> (r->Ok_0 matches DeliveryView::UnknownEpoch {
                epoch: e,
                ..
            } && e == epoch)
        }),
{
}

/// A key that opened is kept behind those that the peer encrypts with, under its name
/// and with the bytes that came out, and it is acknowledged at the address that the
/// peer announces, in its turn. What there is to encrypt with stays, unless the peer
/// says that it was restarted.
pub proof fn opened_key_is_kept_and_acknowledged(
    s: ServiceView,
    app: Map<Seq<char>, Seq<char>>,
    payload: Seq<u8>,
    now_ns: u64,
    key: Seq<u8>,
    other: Seq<char>,
)
    requires
        malformed(app, payload.len()) is None,
        s.e2e.opened(app[HDR_SAE_ORIGIN@], app, app[HDR_KEY_ID@], payload, now_ns).0 == Ok::<
            Seq<u8>,
            E2eErrorView,
        >(key),
        !app.dom().contains(HDR_INCARNATION@) || s.incarnations.seen.contains_pair(
            app[HDR_SAE_ORIGIN@],
            app[HDR_INCARNATION@],
        ),
        s.pool.of(app[HDR_SAE_ORIGIN@]).dec.limit matches Some(n) ==> s.pool.of(
            app[HDR_SAE_ORIGIN@],
        ).dec.keys.len() < n,
        other != app[HDR_SAE_ORIGIN@],
    ensures
        ({
            let source = app[HDR_SAE_ORIGIN@];
            let key_id = app[HDR_KEY_ID@];
            let (after, r) = s.buffer_delivered(app, payload, now_ns);
            let batch = r->Ok_0->batch;
            let out = match batch {
                Some(b) => b,
                None => Seq::empty(),
            };
            &&& r is Ok && r->Ok_0 is Stored
            &&& after.pool.of(source).dec.keys == s.pool.of(source).dec.keys.push(
                KeyView { id: key_id, bytes: key },
            )
            &&& after.pool.of(source).qkd == s.pool.of(source).qkd
            &&& after.pool.of(source).pqc == s.pool.of(source).pqc
            &&& after.pool.of(other) == s.pool.of(other)
            &&& after.pending == s.pending
            &&& after.gen == s.gen
            &&& app.dom().contains(HDR_ACK_ENDPOINT@) && s.acks is Some ==> {
                &&& out + after.acks->0.of(source) == s.acks->0.of(source).push(key_id)
                &&& after.acks->0.queues[source].addr == app[HDR_ACK_ENDPOINT@]
                &&& after.flow.endpoints.contains_pair(source, app[HDR_ACK_ENDPOINT@])
                &&& after.acks->0.of(other) == s.acks->0.of(other)
            }
            &&& s.acks is None ==> batch is None && after.acks is None
        }),
{
    let source = app[HDR_SAE_ORIGIN@];
    let key_id = app[HDR_KEY_ID@];
    if s.acks is Some {
        if app.dom().contains(HDR_ACK_ENDPOINT@) {
            crate::ack_socket::queued_acks_are_kept(
                s.acks->0,
                source,
                app[HDR_ACK_ENDPOINT@],
                key_id,
            );
        }
    }
}

/// The applications of a node are told in the order in which they were asked for.
pub proof fn groups_keep_the_order(
    a: Seq<Seq<char>>,
    na: Seq<Seq<char>>,
    b: Seq<Seq<char>>,
    nb: Seq<Seq<char>>,
    node: Seq<char>,
    target: Seq<char>,
)
    requires
        a.len() == na.len(),
        b.len() == nb.len(),
    ensures
        members(a + b, na + nb, node) == members(a, na, node) + members(b, nb, node),
        members(seq![target], seq![node], node) == seq![target],
    decreases b.len(),
{
    if b.len() == 0 {
        assert(a + b =~= a);
        assert(na + nb =~= na);
        assert(members(a, na, node) + members(b, nb, node) =~= members(a, na, node));
    } else {
        assert((a + b).drop_last() =~= a + b.drop_last());
        assert((na + nb).drop_last() =~= na + nb.drop_last());
        groups_keep_the_order(a, na, b.drop_last(), nb.drop_last(), node, target);
        assert(members(a + b, na + nb, node) =~= members(a, na, node) + members(b, nb, node));
    }
    let one = seq![target];
    let its = seq![node];
    assert(one.drop_last() =~= Seq::empty());
    reveal_with_fuel(members, 2);
    assert(members(one, its, node) =~= one);
}

/// The names in a header are targets like those in the body, and nobody is one who is
/// not named.
pub proof fn header_adds_its_names(
    slave: Seq<char>,
    body: Etsi014KeyRequest,
    text: Seq<char>,
    sae: Seq<char>,
)
    requires
        body.additional_slave_sae_ids is None,
    ensures
        target_set(slave, body, Some(text)).contains(sae) <==> sae == slave || listed_names(
            text,
            Seq::empty(),
        ).contains(sae),
{
}

/// A key of a peer that announces no address is acknowledged under this node's
/// certificate, if the peer is known and has an endpoint; where there is no way at
/// all, that is counted and nothing is queued.
pub proof fn acknowledgement_goes_where_it_can(
    s: ServiceView,
    peer: Seq<char>,
    key_id: Seq<char>,
)
    requires
        s.flow.of(peer).ack_no_endpoint < u64::MAX,
        s.flow.of(peer).ack_enqueued < u64::MAX,
    ensures
        ({
            let (after, batch) = s.acknowledging(peer, None, key_id);
            let out = match batch {
                Some(b) => b,
                None => Seq::empty(),
            };
            let can = s.acks is Some && s.acks->0.authenticated && s.peers.peers.dom().contains(peer)
                && s.peers.peers[peer].endpoint.len() > 0;
            &&& can ==> {
                &&& out + after.acks->0.of(peer) == s.acks->0.of(peer).push(key_id)
                &&& after.flow.of(peer).ack_enqueued == s.flow.of(peer).ack_enqueued + 1
                &&& after.flow.of(peer).ack_no_endpoint == s.flow.of(peer).ack_no_endpoint
            }
            &&& !can ==> {
                &&& batch is None
                &&& after.acks == s.acks
                &&& after.flow.of(peer).ack_no_endpoint == s.flow.of(peer).ack_no_endpoint + 1
                &&& after.flow.of(peer).ack_enqueued == s.flow.of(peer).ack_enqueued
            }
            &&& after.pool == s.pool && after.pending == s.pending && after.gen == s.gen
        }),
{
    if s.acks is Some {
        crate::ack_socket::queued_acks_are_kept(s.acks->0, peer, Seq::empty(), key_id);
    }
}

/// An agreement is only started with a peer that is known and through a client; where
/// it is not, nothing of the layer changes.
pub proof fn agreements_need_a_known_peer(s: ServiceView, peer: Seq<char>, now_ns: u64)
    ensures
        s.may_agree(peer, now_ns) ==> s.has_peer_client && s.peers.peers.dom().contains(peer),
        s.has_peer_client && s.peers.peers.dom().contains(peer) && !s.e2e.peers.dom().contains(peer)
            ==> s.may_agree(peer, now_ns),
        !s.may_agree(peer, now_ns) ==> s.agreement_asked(peer, now_ns) == s,
        s.may_agree(peer, now_ns) ==> s.agreement_asked(peer, now_ns).e2e.state_of(peer).inflight,
{
}

/// A key that finds the buffer full is dropped and counted, and counts as received all
/// the same; one that finds room is kept behind the others.
pub proof fn received_key_is_kept_if_there_is_room(s: ServiceView, peer: Seq<char>, key: KeyView)
    requires
        s.flow.of(peer).dec_dropped < u64::MAX,
        s.flow.of(peer).recv < u64::MAX,
    ensures
        ({
            let after = s.key_received(peer, key);
            let dec = s.pool.of(peer).dec;
            let room = dec.limit is None || dec.keys.len() < dec.limit->0;
            &&& room ==> after.pool.of(peer).dec.keys == dec.keys.push(key) && after.flow.of(
                peer,
            ).dec_dropped == s.flow.of(peer).dec_dropped
            &&& !room ==> after.pool.of(peer).dec == dec && after.flow.of(peer).dec_dropped
                == s.flow.of(peer).dec_dropped + 1
            &&& after.flow.of(peer).recv == s.flow.of(peer).recv + 1
            &&& after.pool.of(peer).qkd == s.pool.of(peer).qkd
            &&& after.pool.of(peer).pqc == s.pool.of(peer).pqc
        }),
{
}

/// The first key of a restarted peer is the only one that it encrypts with: what it
/// had before is gone.
pub proof fn first_key_after_a_restart_stands_alone(
    s: ServiceView,
    peer: Seq<char>,
    header: Map<Seq<char>, Seq<char>>,
    key_id: Seq<char>,
    key: Seq<u8>,
    now_ns: u64,
)
    requires
        header.dom().contains(HDR_INCARNATION@),
        s.incarnations.seen.dom().contains(peer),
        s.incarnations.seen[peer] != header[HDR_INCARNATION@],
        !s.incarnations.last_wipe.dom().contains(peer) || now_ns - s.incarnations.last_wipe[peer]
            >= 30_000_000_000,
        s.pool.of(peer).dec.limit is None,
    ensures
        ({
            let after = s.stored(peer, header, key_id, key, now_ns).0;
            &&& after.pool.of(peer).dec.keys == seq![KeyView { id: key_id, bytes: key }]
            &&& after.pool.of(peer).qkd.keys.len() == 0
            &&& after.pool.of(peer).pqc.keys.len() == 0
        }),
{
    let noted = s.incarnation_noted(peer, Some(header[HDR_INCARNATION@]), now_ns);
    let kept = noted.key_received(peer, KeyView { id: key_id, bytes: key });
    assert(kept.pool.of(peer).dec.keys =~= seq![KeyView { id: key_id, bytes: key }]);
    let after = kept.acknowledging(peer, header_text(header, HDR_ACK_ENDPOINT@), key_id).0;
    assert(after.pool == kept.pool);
}

/// What is forgotten of a peer is told in full: the keys of both grades to encrypt with
/// together, those to decrypt with, and those that wait to be acknowledged.
pub proof fn forgotten_keys_are_told_in_full(s: ServiceView, peer: Seq<char>, f: Forgotten)
    requires
        s.loses(peer, f),
        s.pool.of(peer).qkd.keys.len() + s.pool.of(peer).pqc.keys.len() <= usize::MAX,
    ensures
        f.enc == s.pool.of(peer).qkd.keys.len() + s.pool.of(peer).pqc.keys.len(),
        f.dec == s.pool.of(peer).dec.keys.len(),
        s.gen is None ==> f.ack_pending == 0,
        s.gen matches Some(g) ==> f.ack_pending == bucket_of(g.pending, peer).dom().len(),
{
}

/// A token is good for as many bytes as is configured, and for one at least.
pub proof fn token_is_good_for_a_byte_at_least(s: ServiceView)
    ensures
        s.token_unit() >= 1,
        s.cfg.sae.token_unit_bytes > 0 ==> s.token_unit() == s.cfg.sae.token_unit_bytes,
        s.cfg.sae.token_unit_bytes == 0 ==> s.token_unit() == 1,
{
}

} // verus!
