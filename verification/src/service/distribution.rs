//! Hands session keys to the applications of this node and of others.
use crate::buffers::{PeerKeys, PoolView};
use crate::config::{DkmsConfig, PeerCfg, PeerCfgView};
use crate::crypto::otp::xored;
use crate::error::{DkmsError, ErrorView};
use crate::etsi::{
    delivered, wrapped, ContainerView, DeliveredKey, Etsi014Key, Etsi020ExtKeyContainer, Etsi020Key,
    WrappedKey,
};
use crate::ids::{NodeId, SaeId};
use crate::names::name_views;
use crate::orr::{digest_text, key_digest};
use crate::pending::{sae_set, PendingKey, PendingKeys};
use crate::security::{GradeResolution, KeyGrade, SecurityLevel};
use crate::service::planning::{group_views, sae_views, EncPlan, GroupView, PeerGroup};
use crate::service::session::{
    generate_session_keys, session_views, too_short, wrap_session_key, SessionKey, SessionView,
    TRANSPORT_KEY_BYTES,
};
use crate::service::{peer_with_stale_transport_buffer, stale_peer, DkmsService, ServiceView};
use crate::text::{decimal, decimal_text, join3};
use crate::token_bucket::{capped, compute_cost, cost_of};
use crate::unique::random_shaped;
use vstd::prelude::*;
use vstd::string::*;

verus! {

/// Why a transport key is not used.
pub open spec fn short_transport_key(len: nat) -> Seq<char> {
    "transport key too short ("@ + decimal(len) + " bytes, need "@ + decimal(
        TRANSPORT_KEY_BYTES as nat,
    ) + ")"@
}

/// Encrypts one session key for a peer with the oldest transport key of the grade
/// that serves the preference: what is left of the peer's keys, and what is sent.
pub open spec fn wrap_one(
    keys: PeerKeys,
    peer: Seq<char>,
    prefs: Seq<KeyGrade>,
    session: SessionView,
) -> (PeerKeys, Result<WrappedKey, ErrorView>) {
    match keys.served(prefs) {
        GradeResolution::Unsatisfiable => (keys, Err(ErrorView::TransportBufferEmpty { peer })),
        GradeResolution::Serve(g) => {
            let tk = keys.enc(g).keys[0];
            let left = keys.with_enc(g, keys.enc(g).popped());
            if tk.bytes.len() < TRANSPORT_KEY_BYTES {
                (left, Err(ErrorView::Crypto(short_transport_key(tk.bytes.len()))))
            } else if tk.bytes.len() < session.bytes.len() {
                (
                    left,
                    Err(
                        ErrorView::Crypto(
                            too_short(tk.bytes.len(), "session key"@, session.bytes.len()),
                        ),
                    ),
                )
            } else {
                (
                    left,
                    Ok(
                        WrappedKey {
                            key_id: session.id,
                            value: xored(session.bytes, tk.bytes),
                            transport_key_id: Some(tk.id),
                            session_key_digest: Some(digest_text(session.id, session.bytes)),
                        },
                    ),
                )
            }
        },
    }
}

/// Encrypts session keys for a peer in turn, until one cannot be.
pub open spec fn wrap_all(
    keys: PeerKeys,
    peer: Seq<char>,
    prefs: Seq<KeyGrade>,
    session: Seq<SessionView>,
) -> (PeerKeys, Result<Seq<WrappedKey>, ErrorView>)
    decreases session.len(),
{
    if session.len() == 0 {
        (keys, Ok(Seq::empty()))
    } else {
        let (left, done) = wrap_all(keys, peer, prefs, session.drop_last());
        match done {
            Err(e) => (left, Err(e)),
            Ok(list) => {
                let (after, one) = wrap_one(left, peer, prefs, session.last());
                match one {
                    Err(e) => (after, Err(e)),
                    Ok(w) => (after, Ok(list.push(w))),
                }
            },
        }
    }
}

/// A failure stays the failure, however many keys are still to come.
pub proof fn lemma_wrap_stops(
    keys: PeerKeys,
    peer: Seq<char>,
    prefs: Seq<KeyGrade>,
    session: Seq<SessionView>,
    i: int,
)
    requires
        0 <= i <= session.len(),
        wrap_all(keys, peer, prefs, session.take(i)).1 is Err,
    ensures
        wrap_all(keys, peer, prefs, session) == wrap_all(keys, peer, prefs, session.take(i)),
    decreases session.len() - i,
{
    if i == session.len() {
        assert(session.take(i) =~= session);
    } else {
        assert(session.take(i + 1).drop_last() =~= session.take(i));
        lemma_wrap_stops(keys, peer, prefs, session, i + 1);
    }
}

/// The level that keys for a node are served with.
pub open spec fn effective_level(
    cfg: DkmsConfig,
    level: Option<SecurityLevel>,
    node: Seq<char>,
) -> SecurityLevel {
    match level {
        Some(l) => l,
        None => cfg.level_for(node),
    }
}

/// The envelope for a group of applications of another node.
pub open spec fn envelope_of(
    cfg: DkmsConfig,
    master: Seq<char>,
    group: GroupView,
    keys: Seq<WrappedKey>,
) -> ContainerView {
    ContainerView {
        keys,
        initiator_sae_id: master,
        target_sae_ids: group.saes,
        ack_callback_url: "https://"@ + cfg.node_id@ + "/kmapi/v1/ext_keys/ack"@,
        ttl_seconds: Some(cfg.pending.default_ttl_secs),
    }
}

/// What goes to another node.
#[verifier::ext_equal]
pub struct OutgoingView {
    pub node: Seq<char>,
    pub envelope: ContainerView,
}

/// The envelopes for groups in turn, until one cannot be made, and what is left of
/// the transport keys.
pub open spec fn envelopes(
    cfg: DkmsConfig,
    pool: PoolView,
    master: Seq<char>,
    level: Option<SecurityLevel>,
    groups: Seq<GroupView>,
    session: Seq<SessionView>,
) -> (PoolView, Result<Seq<OutgoingView>, ErrorView>)
    decreases groups.len(),
{
    if groups.len() == 0 {
        (pool, Ok(Seq::empty()))
    } else {
        let (left, done) = envelopes(cfg, pool, master, level, groups.drop_last(), session);
        match done {
            Err(e) => (left, Err(e)),
            Ok(list) => {
                let g = groups.last();
                let prefs = effective_level(cfg, level, g.node).prefs();
                let (keys, r) = wrap_all(left.of(g.node), g.node, prefs, session);
                let after = left.with(g.node, keys);
                match r {
                    Err(e) => (after, Err(e)),
                    Ok(w) => (
                        after,
                        Ok(
                            list.push(
                                OutgoingView {
                                    node: g.node,
                                    envelope: envelope_of(cfg, master, g, w),
                                },
                            ),
                        ),
                    ),
                }
            },
        }
    }
}

pub proof fn lemma_envelopes_stop(
    cfg: DkmsConfig,
    pool: PoolView,
    master: Seq<char>,
    level: Option<SecurityLevel>,
    groups: Seq<GroupView>,
    session: Seq<SessionView>,
    i: int,
)
    requires
        0 <= i <= groups.len(),
        envelopes(cfg, pool, master, level, groups.take(i), session).1 is Err,
    ensures
        envelopes(cfg, pool, master, level, groups, session) == envelopes(
            cfg,
            pool,
            master,
            level,
            groups.take(i),
            session,
        ),
    decreases groups.len() - i,
{
    if i == groups.len() {
        assert(groups.take(i) =~= groups);
    } else {
        assert(groups.take(i + 1).drop_last() =~= groups.take(i));
        lemma_envelopes_stop(cfg, pool, master, level, groups, session, i + 1);
    }
}

/// The store with every session key waiting for the applications of this node.
pub open spec fn kept_all(
    pending: PendingKeys,
    session: Seq<SessionView>,
    master: Seq<char>,
    authorized: Set<Seq<char>>,
    now_ns: u64,
) -> PendingKeys
    decreases session.len(),
{
    if session.len() == 0 {
        pending
    } else {
        let before = kept_all(pending, session.drop_last(), master, authorized, now_ns);
        before.inserted(
            session.last().id,
            PendingKey {
                initiator: master,
                authorized,
                bytes: session.last().bytes,
                deadline_ns: before.deadline(now_ns, None),
            },
        )
    }
}

/// What keeps envelopes from being sent: the first node that cannot be reached.
pub open spec fn unreachable(
    peers: Map<Seq<char>, PeerCfgView>,
    has_client: bool,
    nodes: Seq<OutgoingView>,
) -> Option<Seq<char>>
    decreases nodes.len(),
{
    if nodes.len() == 0 {
        None
    } else if !has_client {
        Some(
            "peer dkms "@ + nodes[0].node
                + " ETSI020 HTTP peer_client missing \u{2014} orchestator misconfig (tls.cert_path/peer_dkms_ca required)"@,
        )
    } else if !peers.dom().contains(nodes[0].node) {
        Some("peer dkms "@ + nodes[0].node + " not configured"@)
    } else {
        unreachable(peers, has_client, nodes.drop_first())
    }
}

/// An envelope and where it goes.
pub struct Outgoing {
    pub node: NodeId,
    pub cfg: PeerCfg,
    pub envelope: Etsi020ExtKeyContainer,
}

impl View for Outgoing {
    type V = OutgoingView;

    open spec fn view(&self) -> OutgoingView {
        OutgoingView { node: self.node@, envelope: self.envelope@ }
    }
}

pub open spec fn outgoing_views(v: Seq<Outgoing>) -> Seq<OutgoingView> {
    v.map_values(|o: Outgoing| o@)
}

/// What is done for a plan: the store, the transport keys, and what is to be sent.
pub open spec fn distribution(
    s: ServiceView,
    master: Seq<char>,
    local: Seq<Seq<char>>,
    groups: Seq<GroupView>,
    level: Option<SecurityLevel>,
    session: Seq<SessionView>,
    now_ns: u64,
) -> (ServiceView, Result<Seq<OutgoingView>, ErrorView>) {
    let pending = if local.len() > 0 {
        kept_all(s.pending, session, master, local.to_set(), now_ns)
    } else {
        s.pending
    };
    let (pool, made) = envelopes(s.cfg, s.pool, master, level, groups, session);
    (
        ServiceView { pending, pool, ..s },
        match made {
            Err(e) => Err(e),
            Ok(list) => match unreachable(s.peers.peers, s.has_peer_client, list) {
                Some(m) => Err(ErrorView::BadRequest(m)),
                None => Ok(list),
            },
        },
    )
}

/// The transport keys once those that peers have lost are dropped.
pub open spec fn resynced(pool: PoolView, failures: Seq<ErrorView>) -> PoolView
    decreases failures.len(),
{
    if failures.len() == 0 {
        pool
    } else {
        let before = resynced(pool, failures.drop_last());
        match stale_peer(failures.last()) {
            Some(p) => before.with(p, before.of(p).enc_cleared()),
            None => before,
        }
    }
}

/// The store without the keys of these names.
pub open spec fn withdrawn(pending: PendingKeys, ids: Seq<Seq<char>>) -> PendingKeys
    decreases ids.len(),
{
    if ids.len() == 0 {
        pending
    } else {
        withdrawn(pending, ids.drop_last()).removed(ids.last())
    }
}

pub open spec fn failure_views(v: Seq<DkmsError>) -> Seq<ErrorView> {
    v.map_values(|e: DkmsError| e@)
}

pub open spec fn ids_of(session: Seq<SessionView>) -> Seq<Seq<char>> {
    session.map_values(|k: SessionView| k.id)
}

/// What is given back for a plan that came to nothing: its cost for each other node,
/// and for one if there is none.
pub open spec fn refund_of(plan: EncPlan) -> u64 {
    let n = if plan.remote@.len() == 0 {
        1
    } else {
        plan.remote@.len() as int
    };
    capped(plan.cost_per_peer * n)
}

impl ServiceView {
    /// Bytes of key that a token is good for.
    pub open spec fn token_unit(self) -> nat {
        if self.cfg.sae.token_unit_bytes == 0 {
            1
        } else {
            self.cfg.sae.token_unit_bytes as nat
        }
    }

    /// What a plan costs where an application's requests are counted as one.
    pub open spec fn plan_cost(self, plan: EncPlan) -> u64 {
        capped(
            cost_of(
                plan.size_bytes as nat,
                plan.number as nat,
                plan.remote@.len(),
                self.token_unit(),
            ) as int,
        )
    }

    /// Once the tokens for a plan are taken, which the application must have.
    pub open spec fn charged(self, master: Seq<char>, plan: EncPlan, now_ns: u64) -> ServiceView {
        ServiceView {
            buckets: self.buckets.with(
                master,
                self.buckets.of(master, now_ns).spent(self.plan_cost(plan)),
            ),
            ..self
        }
    }

    /// Once the tokens for a plan that came to nothing are given back.
    pub open spec fn refunded(self, master: Seq<char>, plan: EncPlan, now_ns: u64) -> ServiceView {
        ServiceView {
            buckets: self.buckets.with(
                master,
                self.buckets.of(master, now_ns).refunded(refund_of(plan)),
            ),
            ..self
        }
    }

    /// Once a distribution is over: if any node failed, what the application was
    /// charged is given back, where its requests are counted as one, and the keys are
    /// withdrawn. Else nothing changes.
    pub open spec fn settled(
        self,
        master: Seq<char>,
        plan: EncPlan,
        step: AdmissionStep,
        ids: Seq<Seq<char>>,
        failures: Seq<ErrorView>,
        now_ns: u64,
    ) -> ServiceView {
        if failures.len() == 0 {
            self
        } else if step is PerSae {
            self.refunded(master, plan, now_ns).withdrawing(ids, failures)
        } else {
            self.withdrawing(ids, failures)
        }
    }

    /// Once a distribution has failed: no application of this node has the keys, and
    /// transport keys that peers have lost are dropped.
    pub open spec fn withdrawing(self, ids: Seq<Seq<char>>, failures: Seq<ErrorView>) -> ServiceView {
        ServiceView {
            pool: resynced(self.pool, failures),
            pending: withdrawn(self.pending, ids),
            ..self
        }
    }
}

impl DkmsService {
    /// Encrypts the session keys for the applications of another node, each with a
    /// transport key of its own.
    pub fn build_ext_keys_envelope(
        &mut self,
        master: &SaeId,
        peer_node: &NodeId,
        peer_saes: &Vec<SaeId>,
        session_keys: &Vec<SessionKey>,
        serve_pref: &Vec<KeyGrade>,
    ) -> (r: Result<Etsi020ExtKeyContainer, DkmsError>)
        requires
            old(self).inv(),
        ensures
            final(self).inv(),
            ({
                let (keys, made) = wrap_all(
                    old(self)@.pool.of(peer_node@),
                    peer_node@,
                    serve_pref@,
                    session_views(session_keys@),
                );
                &&& final(self)@ == (ServiceView {
                    pool: old(self)@.pool.with(peer_node@, keys),
                    ..old(self)@
                })
                &&& match (r, made) {
                    (Ok(c), Ok(list)) => c@ == envelope_of(
                        old(self).cfg,
                        master@,
                        GroupView { node: peer_node@, saes: sae_views(peer_saes@) },
                        list,
                    ),
                    (Err(e), Err(v)) => e@ == v,
                    _ => false,
                }
            }),
    {
        let ghost before = self@;
        let ghost session = session_views(session_keys@);
        let ghost start = self@.pool.of(peer_node@);
        let ghost pool0 = self@.pool;
        let peer = peer_node.as_str();
        let _ = self.pool.for_peer(peer);
        let n: usize = session_keys.len();
        let mut keys: Vec<Etsi020Key> = Vec::new();
        let mut i: usize = 0;
        proof {
            assert(session.take(0) =~= Seq::<SessionView>::empty());
            assert(wrapped(keys@) =~= Seq::<WrappedKey>::empty());
        }
        while i < n
            invariant
                before == old(self)@,
                n == session_keys@.len(),
                i <= n,
                keys@.len() == i,
                session == session_views(session_keys@),
                start == before.pool.of(peer_node@),
                pool0 == before.pool,
                peer@ == peer_node@,
                self.inv(),
                self@ == (ServiceView { pool: self@.pool, ..before }),
                self.cfg == before.cfg,
                self@.pool == pool0.with(
                    peer_node@,
                    wrap_all(start, peer_node@, serve_pref@, session.take(i as int)).0,
                ),
                wrap_all(start, peer_node@, serve_pref@, session.take(i as int)).1 is Ok,
                wrapped(keys@) == wrap_all(
                    start,
                    peer_node@,
                    serve_pref@,
                    session.take(i as int),
                ).1->Ok_0,
            decreases n - i,
        {
            let ghost left = wrap_all(start, peer_node@, serve_pref@, session.take(i as int)).0;
            let ghost list = wrapped(keys@);
            let ghost sk = session[i as int];
            let ghost next = wrap_all(start, peer_node@, serve_pref@, session.take(i + 1));
            proof {
                assert(session.take(i + 1).drop_last() =~= session.take(i as int));
                assert(session.take(i + 1).last() == sk);
                assert(sk == session_keys@[i as int]@);
                assert(self@.pool.of(peer_node@) == left);
            }
            let k = &session_keys[i];
            let popped = self.pool.for_peer(peer).enc_pop_pref(serve_pref);
            let tk = match popped {
                Some(tk) => tk,
                None => {
                    proof {
                        assert(self@.pool =~= pool0.with(peer_node@, next.0));
                        lemma_wrap_stops(start, peer_node@, serve_pref@, session, i + 1);
                    }
                    return Err(DkmsError::TransportBufferEmpty { peer: peer.to_owned() });
                },
            };
            assert(self@.pool =~= pool0.with(peer_node@, next.0));
            if tk.bytes.len() < TRANSPORT_KEY_BYTES {
                proof {
                    lemma_wrap_stops(start, peer_node@, serve_pref@, session, i + 1);
                }
                let head = join3(
                    "transport key too short (",
                    decimal_text(tk.bytes.len() as u64).as_str(),
                    " bytes, need ",
                );
                return Err(
                    DkmsError::Crypto(
                        join3(head.as_str(), decimal_text(TRANSPORT_KEY_BYTES as u64).as_str(), ")"),
                    ),
                );
            }
            let value = match wrap_session_key(tk.bytes.as_slice(), k.bytes.as_slice()) {
                Ok(v) => v,
                Err(m) => {
                    proof {
                        lemma_wrap_stops(start, peer_node@, serve_pref@, session, i + 1);
                    }
                    return Err(DkmsError::Crypto(m));
                },
            };
            let digest = key_digest(k.id.as_str(), k.bytes.as_slice());
            let transport_key_id = tk.id.as_str().to_owned();
            tk.discard();
            keys.push(
                Etsi020Key {
                    key_id: k.id.as_str().to_owned(),
                    value,
                    transport_key_id: Some(transport_key_id),
                    session_key_digest: Some(digest),
                },
            );
            proof {
                assert(wrapped(keys@) =~= list.push(keys@[i as int]@));
                assert(keys@[i as int]@ =~= next.1->Ok_0.last());
                assert(wrapped(keys@) =~= next.1->Ok_0);
            }
            i = i + 1;
        }
        assert(session.take(n as int) =~= session);
        let m: usize = peer_saes.len();
        let mut targets: Vec<String> = Vec::new();
        let mut j: usize = 0;
        while j < m
            invariant
                m == peer_saes@.len(),
                j <= m,
                targets@.len() == j,
                forall|a: int| 0 <= a < j ==> (#[trigger] targets@[a])@ == peer_saes@[a]@,
            decreases m - j,
        {
            targets.push(peer_saes[j].as_str().to_owned());
            j = j + 1;
        }
        assert(targets@.map_values(|s: String| s@) =~= sae_views(peer_saes@));
        Ok(
            Etsi020ExtKeyContainer {
                keys,
                initiator_sae_id: master.as_str().to_owned(),
                target_sae_ids: targets,
                ack_callback_url: join3(
                    "https://",
                    self.cfg.node_id.as_str(),
                    "/kmapi/v1/ext_keys/ack",
                ),
                ttl_seconds: Some(self.cfg.pending.default_ttl_secs),
            },
        )
    }

    /// The envelopes for all groups in turn.
    fn build_envelopes(
        &mut self,
        master: &SaeId,
        level: Option<SecurityLevel>,
        groups: &Vec<PeerGroup>,
        session_keys: &Vec<SessionKey>,
    ) -> (r: Result<Vec<(NodeId, Etsi020ExtKeyContainer)>, DkmsError>)
        requires
            old(self).inv(),
        ensures
            final(self).inv(),
            ({
                let (pool, made) = envelopes(
                    old(self).cfg,
                    old(self)@.pool,
                    master@,
                    level,
                    group_views(groups@),
                    session_views(session_keys@),
                );
                &&& final(self)@ == (ServiceView { pool, ..old(self)@ })
                &&& match (r, made) {
                    (Ok(v), Ok(list)) => {
                        &&& v@.len() == list.len()
                        &&& forall|i: int|
                            0 <= i < list.len() ==> (#[trigger] v@[i]).0@ == list[i].node && v@[i].1@
                                == list[i].envelope
                    },
                    (Err(e), Err(x)) => e@ == x,
                    _ => false,
                }
            }),
    {
        let ghost before = self@;
        let ghost gv = group_views(groups@);
        let ghost session = session_views(session_keys@);
        let n: usize = groups.len();
        let mut out: Vec<(NodeId, Etsi020ExtKeyContainer)> = Vec::new();
        let mut i: usize = 0;
        assert(gv.take(0) =~= Seq::<GroupView>::empty());
        while i < n
            invariant
                before == old(self)@,
                n == groups@.len(),
                i <= n,
                gv == group_views(groups@),
                session == session_views(session_keys@),
                self.inv(),
                self.cfg == before.cfg,
                self@ == (ServiceView {
                    pool: envelopes(
                        before.cfg,
                        before.pool,
                        master@,
                        level,
                        gv.take(i as int),
                        session,
                    ).0,
                    ..before
                }),
                ({
                    let made = envelopes(
                        before.cfg,
                        before.pool,
                        master@,
                        level,
                        gv.take(i as int),
                        session,
                    ).1;
                    &&& made is Ok
                    &&& out@.len() == made->Ok_0.len()
                    &&& forall|j: int|
                        0 <= j < out@.len() ==> (#[trigger] out@[j]).0@ == made->Ok_0[j].node
                            && out@[j].1@ == made->Ok_0[j].envelope
                }),
            decreases n - i,
        {
            proof {
                assert(gv.take(i + 1).drop_last() =~= gv.take(i as int));
                assert(gv.take(i + 1).last() == groups@[i as int]@);
            }
            let g = &groups[i];
            let effective = match level {
                Some(l) => l,
                None => self.cfg.security_level_for(g.node.as_str()),
            };
            let pref = effective.serve_pref();
            let envelope = match self.build_ext_keys_envelope(
                master,
                &g.node,
                &g.saes,
                session_keys,
                &pref,
            ) {
                Ok(e) => e,
                Err(e) => {
                    proof {
                        lemma_envelopes_stop(
                            before.cfg,
                            before.pool,
                            master@,
                            level,
                            gv,
                            session,
                            i + 1,
                        );
                    }
                    return Err(e);
                },
            };
            out.push((g.node.copy(), envelope));
            i = i + 1;
        }
        assert(gv.take(n as int) =~= gv);
        Ok(out)
    }

    /// Gives the session keys to the applications of this node, and makes up what
    /// the other nodes are sent. Transport keys that were taken stay taken, whatever
    /// comes of it.
    pub fn distribute(
        &mut self,
        master: &SaeId,
        plan: &EncPlan,
        session_keys: &Vec<SessionKey>,
        now_ns: u64,
    ) -> (r: Result<Vec<Outgoing>, DkmsError>)
        requires
            old(self).inv(),
        ensures
            final(self).inv(),
            ({
                let (after, made) = distribution(
                    old(self)@,
                    master@,
                    sae_views(plan.local@),
                    group_views(plan.remote@),
                    plan.level,
                    session_views(session_keys@),
                    now_ns,
                );
                &&& final(self)@ == after
                &&& match (r, made) {
                    (Ok(v), Ok(list)) => {
                        &&& outgoing_views(v@) == list
                        &&& forall|i: int|
                            0 <= i < v@.len() ==> old(self)@.peers.peers.contains_pair(
                                (#[trigger] v@[i]).node@,
                                v@[i].cfg@,
                            )
                    },
                    (Err(e), Err(x)) => e@ == x,
                    _ => false,
                }
            }),
    {
        let ghost before = self@;
        let ghost session = session_views(session_keys@);
        let n: usize = session_keys.len();
        if plan.local.len() > 0 {
            let ghost locals = sae_views(plan.local@).to_set();
            let mut i: usize = 0;
            assert(session.take(0) =~= Seq::<SessionView>::empty());
            while i < n
                invariant
                    n == session_keys@.len(),
                    i <= n,
                    session == session_views(session_keys@),
                    locals == sae_views(plan.local@).to_set(),
                    locals == sae_set(plan.local@),
                    self.inv(),
                    self@ == (ServiceView {
                        pending: kept_all(
                            before.pending,
                            session.take(i as int),
                            master@,
                            locals,
                            now_ns,
                        ),
                        ..before
                    }),
                decreases n - i,
            {
                assert(session.take(i + 1).drop_last() =~= session.take(i as int));
                let k = &session_keys[i];
                let bytes = k.bytes.clone();
                assert(bytes@ == k.bytes@);
                self.pending.insert(&k.id, master, &plan.local, bytes, None, now_ns);
                i = i + 1;
            }
            assert(session.take(n as int) =~= session);
        }
        let made = match self.build_envelopes(master, plan.level, &plan.remote, session_keys) {
            Ok(v) => v,
            Err(e) => {
                return Err(e);
            },
        };
        let ghost list = envelopes(
            before.cfg,
            before.pool,
            master@,
            plan.level,
            group_views(plan.remote@),
            session,
        ).1->Ok_0;
        let m: usize = made.len();
        let mut out: Vec<Outgoing> = Vec::new();
        let mut made = made;
        let ghost made0 = made@;
        assert(list.skip(0) =~= list);
        while out.len() < m
            invariant
                m == list.len(),
                made0.len() == m,
                out@.len() <= m,
                made@ == made0.skip(out@.len() as int),
                forall|i: int|
                    0 <= i < m ==> (#[trigger] made0[i]).0@ == list[i].node && made0[i].1@
                        == list[i].envelope,
                self.inv(),
                self.peers@ == before.peers,
                self.has_peer_client == before.has_peer_client,
                outgoing_views(out@) == list.take(out@.len() as int),
                forall|i: int|
                    0 <= i < out@.len() ==> before.peers.peers.contains_pair(
                        (#[trigger] out@[i]).node@,
                        out@[i].cfg@,
                    ),
                unreachable(before.peers.peers, before.has_peer_client, list) == unreachable(
                    before.peers.peers,
                    before.has_peer_client,
                    list.skip(out@.len() as int),
                ),
                before == old(self)@,
                self@ == (distribution(
                    before,
                    master@,
                    sae_views(plan.local@),
                    group_views(plan.remote@),
                    plan.level,
                    session,
                    now_ns,
                ).0),
                envelopes(
                    before.cfg,
                    before.pool,
                    master@,
                    plan.level,
                    group_views(plan.remote@),
                    session,
                ).1 == Ok::<Seq<OutgoingView>, ErrorView>(list),
                session == session_views(session_keys@),
            decreases m - out@.len(),
        {
            let ghost at = out@.len() as int;
            let ghost out0 = out@;
            assert(list.skip(at)[0] == list[at]);
            assert(list.skip(at).drop_first() =~= list.skip(at + 1));
            assert(made@[0] == made0[at]);
            let (node, envelope) = made.remove(0);
            assert(made@ =~= made0.skip(at + 1));
            if !self.has_peer_client {
                return Err(
                    DkmsError::BadRequest(
                        join3(
                            "peer dkms ",
                            node.as_str(),
                            " ETSI020 HTTP peer_client missing \u{2014} orchestator misconfig (tls.cert_path/peer_dkms_ca required)",
                        ),
                    ),
                );
            }
            let cfg = match self.peers.get(node.as_str()) {
                Some(c) => c,
                None => {
                    return Err(
                        DkmsError::BadRequest(
                            join3("peer dkms ", node.as_str(), " not configured"),
                        ),
                    );
                },
            };
            out.push(Outgoing { node, cfg, envelope });
            assert(outgoing_views(out@) =~= list.take(at + 1));
        }
        assert(list.take(m as int) =~= list);
        Ok(out)
    }
}

/// How a request is held to what its application may ask for.
#[derive(Debug)]
pub enum AdmissionStep {
    /// Nothing leaves this node.
    Free,
    /// By what the keys of each of these peers allow, all of them or none.
    PerPeer(Vec<String>),
    /// By what the application may ask for in all.
    PerSae,
}

/// Where the keys of each peer are shared out among the applications, a request is
/// held to its share of each peer that it needs keys of.
pub fn admission_step(plan: &EncPlan, shared_out: bool) -> (r: AdmissionStep)
    ensures
        match r {
            AdmissionStep::Free => shared_out && plan.remote@.len() == 0,
            AdmissionStep::PerPeer(v) => {
                &&& shared_out && plan.remote@.len() > 0
                &&& name_views(v@) == group_views(plan.remote@).map_values(|g: GroupView| g.node)
            },
            AdmissionStep::PerSae => !shared_out,
        },
{
    if !shared_out {
        return AdmissionStep::PerSae;
    }
    let n: usize = plan.remote.len();
    if n == 0 {
        return AdmissionStep::Free;
    }
    let mut peers: Vec<String> = Vec::new();
    let mut i: usize = 0;
    while i < n
        invariant
            n == plan.remote@.len(),
            i <= n,
            peers@.len() == i,
            forall|j: int| 0 <= j < i ==> (#[trigger] peers@[j])@ == plan.remote@[j].node@,
        decreases n - i,
    {
        peers.push(plan.remote[i].node.as_str().to_owned());
        i = i + 1;
    }
    assert(name_views(peers@) =~= group_views(plan.remote@).map_values(|g: GroupView| g.node));
    AdmissionStep::PerPeer(peers)
}

impl DkmsService {
    /// Makes the session keys of a plan and distributes them.
    pub fn begin_distribution(&mut self, master: &SaeId, plan: &EncPlan, now_ns: u64) -> (r: Result<
        (Vec<SessionKey>, Vec<Outgoing>),
        DkmsError,
    >)
        requires
            old(self).inv(),
            plan.size_bytes <= isize::MAX,
        ensures
            final(self).inv(),
            exists|session: Seq<SessionView>|
                {
                    let (after, made) = #[trigger] distribution(
                        old(self)@,
                        master@,
                        sae_views(plan.local@),
                        group_views(plan.remote@),
                        plan.level,
                        session,
                        now_ns,
                    );
                    &&& session.len() == plan.number
                    &&& forall|i: int|
                        0 <= i < session.len() ==> random_shaped((#[trigger] session[i]).id)
                            && session[i].bytes.len() == plan.size_bytes
                    &&& final(self)@ == after
                    &&& match (r, made) {
                        (Ok((keys, v)), Ok(list)) => {
                            &&& session_views(keys@) == session
                            &&& outgoing_views(v@) == list
                            &&& forall|i: int|
                                0 <= i < v@.len() ==> old(self)@.peers.peers.contains_pair(
                                    (#[trigger] v@[i]).node@,
                                    v@[i].cfg@,
                                )
                        },
                        (Err(e), Err(x)) => e@ == x,
                        _ => false,
                    }
                },
    {
        let ghost before = self@;
        let session_keys = generate_session_keys(plan.number, plan.size_bytes);
        let ghost session = session_views(session_keys@);
        assert forall|i: int| 0 <= i < session.len() implies random_shaped((#[trigger] session[i]).id)
            && session[i].bytes.len() == plan.size_bytes by {
            assert(session[i] == session_keys@[i]@);
        }
        let sent = self.distribute(master, plan, &session_keys, now_ns);
        let ghost d = distribution(
            before,
            master@,
            sae_views(plan.local@),
            group_views(plan.remote@),
            plan.level,
            session,
            now_ns,
        );
        assert(self@ == d.0);
        match sent {
            Ok(v) => Ok((session_keys, v)),
            Err(e) => Err(e),
        }
    }

    /// Drops the transport keys for a peer whose refusal shows that it has lost
    /// them, so that they are made anew. Says how many were dropped.
    pub fn resync_transport_buffer_if_stale(&mut self, e: &DkmsError) -> (r: Option<usize>)
        requires
            old(self).inv(),
        ensures
            final(self).inv(),
            match (r, stale_peer(e@)) {
                (Some(n), Some(p)) => {
                    let keys = old(self)@.pool.of(p);
                    &&& final(self)@ == (ServiceView {
                        pool: old(self)@.pool.with(p, keys.enc_cleared()),
                        ..old(self)@
                    })
                    &&& n == (if keys.enc_len() > usize::MAX {
                        usize::MAX as int
                    } else {
                        keys.enc_len() as int
                    })
                },
                (None, None) => final(self)@ == old(self)@,
                _ => false,
            },
    {
        match peer_with_stale_transport_buffer(e) {
            Some(peer) => {
                let n: usize = self.pool.for_peer(peer).enc_clear();
                Some(n)
            },
            None => None,
        }
    }

    /// Ends a distribution. If any node failed, no application gets the keys: those
    /// of this node lose them again, transport keys that peers have lost are
    /// dropped, and the first failure is reported. Else the keys are handed out.
    pub fn finish_distribution(&mut self, session_keys: &Vec<SessionKey>, failures: &Vec<DkmsError>) -> (r:
        Result<Vec<Etsi014Key>, DkmsError>)
        requires
            old(self).inv(),
        ensures
            final(self).inv(),
            ({
                let session = session_views(session_keys@);
                match r {
                    Ok(keys) => {
                        &&& failures@.len() == 0
                        &&& final(self)@ == old(self)@
                        &&& delivered(keys@) == session.map_values(
                            |k: SessionView| DeliveredKey { key_id: k.id, key: k.bytes },
                        )
                        &&& keys@.len() == session_keys@.len()
                        &&& forall|i: int|
                            0 <= i < keys@.len() ==> (#[trigger] keys@[i]).key_id@
                                == session_keys@[i].id@ && keys@[i].key@ == session_keys@[i].bytes@
                    },
                    Err(e) => {
                        &&& failures@.len() > 0
                        &&& final(self)@ == old(self)@.withdrawing(
                            ids_of(session),
                            failure_views(failures@),
                        )
                        &&& e@ == (ErrorView::PeerUnreachable {
                            peer: failures@[0].text_spec(),
                            source: "one or more peer DKMSs failed during key distribution"@,
                        })
                    },
                }
            }),
    {
        let ghost before = self@;
        let ghost session = session_views(session_keys@);
        let n: usize = session_keys.len();
        let m: usize = failures.len();
        if m > 0 {
            let ghost fv = failure_views(failures@);
            let mut i: usize = 0;
            assert(fv.take(0) =~= Seq::<ErrorView>::empty());
            while i < m
                invariant
                    m == failures@.len(),
                    i <= m,
                    fv == failure_views(failures@),
                    self.inv(),
                    self@ == (ServiceView {
                        pool: resynced(before.pool, fv.take(i as int)),
                        ..before
                    }),
                decreases m - i,
            {
                assert(fv.take(i + 1).drop_last() =~= fv.take(i as int));
                assert(fv.take(i + 1).last() == failures@[i as int]@);
                self.resync_transport_buffer_if_stale(&failures[i]);
                i = i + 1;
            }
            assert(fv.take(m as int) =~= fv);
            let ghost pool1 = self@.pool;
            let ghost ids = ids_of(session);
            let mut j: usize = 0;
            assert(ids.take(0) =~= Seq::<Seq<char>>::empty());
            while j < n
                invariant
                    n == session_keys@.len(),
                    j <= n,
                    session == session_views(session_keys@),
                    ids == ids_of(session),
                    self.inv(),
                    self@ == (ServiceView {
                        pool: pool1,
                        pending: withdrawn(before.pending, ids.take(j as int)),
                        ..before
                    }),
                decreases n - j,
            {
                assert(ids.take(j + 1).drop_last() =~= ids.take(j as int));
                self.pending.force_remove(&session_keys[j].id);
                j = j + 1;
            }
            assert(ids.take(n as int) =~= ids);
            return Err(
                DkmsError::PeerUnreachable {
                    peer: failures[0].text(),
                    source: "one or more peer DKMSs failed during key distribution".to_owned(),
                },
            );
        }
        let mut keys: Vec<Etsi014Key> = Vec::new();
        let mut i: usize = 0;
        while i < n
            invariant
                n == session_keys@.len(),
                i <= n,
                keys@.len() == i,
                forall|j: int|
                    0 <= j < i ==> (#[trigger] keys@[j])@ == (DeliveredKey {
                        key_id: session_keys@[j].id@,
                        key: session_keys@[j].bytes@,
                    }),
            decreases n - i,
        {
            let k = &session_keys[i];
            let key = k.bytes.clone();
            assert(key@ == k.bytes@);
            keys.push(Etsi014Key { key_id: k.id.as_str().to_owned(), key });
            i = i + 1;
        }
        assert(delivered(keys@) =~= session.map_values(
            |k: SessionView| DeliveredKey { key_id: k.id, key: k.bytes },
        ));
        Ok(keys)
    }

    /// Takes what a plan costs from the application's tokens.
    pub fn charge(&mut self, master: &SaeId, plan: &EncPlan, now_ns: u64) -> (r: Result<(), DkmsError>)
        requires
            old(self).inv(),
        ensures
            final(self).inv(),
            ({
                let cost = old(self)@.plan_cost(*plan);
                let now = old(self)@.buckets.of(master@, now_ns);
                match r {
                    Ok(_) => now.tokens() >= cost && final(self)@ == old(self)@.charged(
                        master@,
                        *plan,
                        now_ns,
                    ),
                    Err(e) => {
                        &&& now.tokens() < cost
                        &&& e@ == (ErrorView::RateLimited {
                            sae: master@,
                            requested: cost,
                            available: now.tokens() as u64,
                        })
                        &&& final(self)@ == (ServiceView {
                            buckets: old(self)@.buckets.with(master@, now),
                            ..old(self)@
                        })
                    },
                }
            }),
    {
        let cost: u64 = compute_cost(
            plan.size_bytes as u64,
            plan.number as u64,
            plan.remote.len() as u64,
            self.cfg.sae.token_unit_bytes as u64,
        );
        match self.buckets.try_consume(master, cost, now_ns) {
            Ok(_) => Ok(()),
            Err(available) => Err(
                DkmsError::RateLimited { sae: master.copy(), requested: cost, available },
            ),
        }
    }

    /// Gives back what a plan cost that came to nothing: its cost for each other
    /// node, and for one if there is none.
    pub fn refund(&mut self, master: &SaeId, plan: &EncPlan, now_ns: u64)
        requires
            old(self).inv(),
        ensures
            final(self).inv(),
            final(self)@ == old(self)@.refunded(master@, *plan, now_ns),
    {
        let n: u64 = if plan.remote.len() == 0 { 1 } else { plan.remote.len() as u64 };
        let amount: u64 = match plan.cost_per_peer.checked_mul(n) {
            Some(a) => a,
            None => u64::MAX,
        };
        self.buckets.refund(master, amount, now_ns);
    }

    /// Settles a distribution: gives the tokens back if and only if any node failed,
    /// and then hands the keys out or withdraws them. Shares of single peers are given
    /// back by whoever keeps them; they are due exactly where the result is an error.
    pub fn settle_distribution(
        &mut self,
        master: &SaeId,
        plan: &EncPlan,
        step: &AdmissionStep,
        session_keys: &Vec<SessionKey>,
        failures: &Vec<DkmsError>,
        now_ns: u64,
    ) -> (r: Result<Vec<Etsi014Key>, DkmsError>)
        requires
            old(self).inv(),
        ensures
            final(self).inv(),
            final(self)@ == old(self)@.settled(
                master@,
                *plan,
                *step,
                ids_of(session_views(session_keys@)),
                failure_views(failures@),
                now_ns,
            ),
            match r {
                Ok(keys) => {
                    &&& failures@.len() == 0
                    &&& delivered(keys@) == session_views(session_keys@).map_values(
                        |k: SessionView| DeliveredKey { key_id: k.id, key: k.bytes },
                    )
                    &&& keys@.len() == session_keys@.len()
                    &&& forall|i: int|
                        0 <= i < keys@.len() ==> (#[trigger] keys@[i]).key_id@
                            == session_keys@[i].id@ && keys@[i].key@ == session_keys@[i].bytes@
                },
                Err(e) => {
                    &&& failures@.len() > 0
                    &&& e@ == (ErrorView::PeerUnreachable {
                        peer: failures@[0].text_spec(),
                        source: "one or more peer DKMSs failed during key distribution"@,
                    })
                },
            },
    {
        if failures.len() > 0 {
            if let AdmissionStep::PerSae = step {
                self.refund(master, plan, now_ns);
            }
        }
        self.finish_distribution(session_keys, failures)
    }
}

} // verus!
