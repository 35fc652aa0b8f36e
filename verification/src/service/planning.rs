//! Who a request for keys is for, and which nodes have to be told.
use crate::config::DkmsConfig;
use crate::error::{DkmsError, ErrorView};
use crate::etsi::{listed_names, split_names, Etsi014KeyRequest};
use crate::generator::GeneratorView;
use crate::ids::{NodeId, SaeId};
use crate::names::{
    add_name, add_names, lemma_ordered, listed_in_order, name_views, ordered,
};
use crate::qrng_adapter::bytes_of_bits;
use crate::security::SecurityLevel;
use crate::security_level::{asked_level, requested};
use crate::service::{check_request_limits, limit_violation, DkmsService, ServiceView};
use crate::text::{decimal, decimal_text, join2, join3, text_eq};
use crate::token_bucket::{capped, compute_cost, cost_of};
use vstd::prelude::*;
use vstd::string::*;

verus! {

pub open spec fn sae_views(v: Seq<SaeId>) -> Seq<Seq<char>> {
    v.map_values(|s: SaeId| s@)
}

pub open spec fn node_ids(v: Seq<NodeId>) -> Seq<Seq<char>> {
    v.map_values(|n: NodeId| n@)
}

/// The names that a request adds in its body.
pub open spec fn body_names(body: Etsi014KeyRequest) -> Set<Seq<char>> {
    match body.additional_slave_sae_ids {
        Some(v) => name_views(v@).to_set(),
        None => Set::empty(),
    }
}

/// The names that a request adds in a header.
pub open spec fn header_names(extra: Option<Seq<char>>) -> Set<Seq<char>> {
    match extra {
        Some(t) => listed_names(t, Seq::empty()).to_set(),
        None => Set::empty(),
    }
}

/// Everyone that keys are asked for.
pub open spec fn target_set(
    slave: Seq<char>,
    body: Etsi014KeyRequest,
    extra: Option<Seq<char>>,
) -> Set<Seq<char>> {
    Set::<Seq<char>>::empty().insert(slave).union(body_names(body)).union(header_names(extra))
}

pub open spec fn text_option(o: Option<&str>) -> Option<Seq<char>> {
    match o {
        Some(t) => Some(t@),
        None => None,
    }
}

/// Those of the targets that belong to a node, in their order.
pub open spec fn members(
    targets: Seq<Seq<char>>,
    nodes: Seq<Seq<char>>,
    node: Seq<char>,
) -> Seq<Seq<char>>
    decreases targets.len(),
{
    if targets.len() == 0 || nodes.len() != targets.len() {
        Seq::empty()
    } else {
        let before = members(targets.drop_last(), nodes.drop_last(), node);
        if nodes.last() == node {
            before.push(targets.last())
        } else {
            before
        }
    }
}

/// The nodes other than this one that have to be told, in order.
pub open spec fn remote_nodes(nodes: Seq<Seq<char>>, me: Seq<char>) -> Seq<Seq<char>> {
    ordered(nodes.to_set().remove(me))
}

/// Applications of one other node.
#[derive(Debug)]
pub struct PeerGroup {
    pub node: NodeId,
    pub saes: Vec<SaeId>,
}

#[verifier::ext_equal]
pub struct GroupView {
    pub node: Seq<char>,
    pub saes: Seq<Seq<char>>,
}

impl View for PeerGroup {
    type V = GroupView;

    open spec fn view(&self) -> GroupView {
        GroupView { node: self.node@, saes: sae_views(self.saes@) }
    }
}

pub open spec fn group_views(v: Seq<PeerGroup>) -> Seq<GroupView> {
    v.map_values(|g: PeerGroup| g@)
}

/// The applications of each of the nodes.
pub open spec fn grouped(
    targets: Seq<Seq<char>>,
    nodes: Seq<Seq<char>>,
    remote: Seq<Seq<char>>,
) -> Seq<GroupView> {
    remote.map_values(|n: Seq<char>| GroupView { node: n, saes: members(targets, nodes, n) })
}

/// What a request comes to.
#[derive(Debug)]
pub struct EncPlan {
    /// Applications of this node.
    pub local: Vec<SaeId>,
    pub remote: Vec<PeerGroup>,
    /// The security level, if the request names one.
    pub level: Option<SecurityLevel>,
    pub number: u32,
    pub size_bytes: usize,
    /// What the request costs for each other node.
    pub cost_per_peer: u64,
}

/// Whether a request of this level cannot be served because the peer has no QKD
/// path.
pub open spec fn lacks_path(
    cfg: DkmsConfig,
    gen: Option<GeneratorView>,
    level: Option<SecurityLevel>,
    peer: Seq<char>,
) -> bool {
    let effective = match level {
        Some(l) => l,
        None => cfg.level_for(peer),
    };
    &&& effective == SecurityLevel::StrictQkd
    &&& gen matches Some(g) && g.qkd.dom().contains(peer) && !g.qkd[peer]
}

/// The first of the peers that lacks a path.
pub open spec fn first_lacking(
    cfg: DkmsConfig,
    gen: Option<GeneratorView>,
    level: Option<SecurityLevel>,
    peers: Seq<Seq<char>>,
) -> Option<Seq<char>>
    decreases peers.len(),
{
    if peers.len() == 0 {
        None
    } else if lacks_path(cfg, gen, level, peers[0]) {
        Some(peers[0])
    } else {
        first_lacking(cfg, gen, level, peers.drop_first())
    }
}

impl ServiceView {
    /// What keeps a request from being planned, if anything does.
    pub open spec fn plan_violation(self, body: Etsi014KeyRequest, nodes: Seq<Seq<char>>) -> Option<
        Seq<char>,
    > {
        let remote = remote_nodes(nodes, self.cfg.node_id@);
        if remote.len() > self.cfg.request.max_concurrent_peers {
            Some(
                "too many destination DKMSs ("@ + decimal(remote.len()) + "), max "@ + decimal(
                    self.cfg.request.max_concurrent_peers as nat,
                ),
            )
        } else {
            match asked_level(body) {
                Err(m) => Some(m),
                Ok(level) => match first_lacking(self.cfg, self.gen, level, remote) {
                    Some(p) => Some(
                        "strict_qkd requested but SDN reports no QKD path to dkms "@ + p,
                    ),
                    None => None,
                },
            }
        }
    }
}

fn members_of(targets: &Vec<SaeId>, nodes: &Vec<NodeId>, node: &str) -> (r: Vec<SaeId>)
    requires
        targets@.len() == nodes@.len(),
    ensures
        sae_views(r@) == members(sae_views(targets@), node_ids(nodes@), node@),
{
    let ghost tv = sae_views(targets@);
    let ghost nv = node_ids(nodes@);
    let mut out: Vec<SaeId> = Vec::new();
    let n: usize = targets.len();
    let mut i: usize = 0;
    assert(sae_views(out@) =~= Seq::<Seq<char>>::empty());
    while i < n
        invariant
            n == targets@.len() == nodes@.len(),
            i <= n,
            tv == sae_views(targets@),
            nv == node_ids(nodes@),
            sae_views(out@) == members(tv.take(i as int), nv.take(i as int), node@),
        decreases n - i,
    {
        let ghost prior = out@;
        assert(tv.take(i + 1).drop_last() =~= tv.take(i as int));
        assert(nv.take(i + 1).drop_last() =~= nv.take(i as int));
        if text_eq(nodes[i].as_str(), node) {
            out.push(targets[i].copy());
            assert(sae_views(out@) =~= sae_views(prior).push(targets@[i as int]@));
        }
        i = i + 1;
    }
    assert(tv.take(n as int) =~= tv);
    assert(nv.take(n as int) =~= nv);
    out
}

/// The names of the other nodes in order.
fn remote_names(nodes: &Vec<NodeId>, me: &str) -> (r: Vec<String>)
    ensures
        name_views(r@) == remote_nodes(node_ids(nodes@), me@),
        listed_in_order(name_views(r@), node_ids(nodes@).to_set().remove(me@)),
{
    let ghost nv = node_ids(nodes@);
    let mut list: Vec<String> = Vec::new();
    let n: usize = nodes.len();
    let mut i: usize = 0;
    proof {
        assert(name_views(list@).to_set() =~= nv.take(0).to_set().remove(me@));
    }
    while i < n
        invariant
            n == nodes@.len(),
            i <= n,
            nv == node_ids(nodes@),
            listed_in_order(name_views(list@), nv.take(i as int).to_set().remove(me@)),
        decreases n - i,
    {
        let ghost prior = nv.take(i as int);
        let ghost name = nodes@[i as int]@;
        if !text_eq(nodes[i].as_str(), me) {
            add_name(&mut list, nodes[i].as_str());
        }
        proof {
            let next = nv.take(i + 1);
            assert(next =~= prior.push(name));
            assert forall|k: Seq<char>| #[trigger] next.to_set().contains(k)
                == prior.to_set().insert(name).contains(k) by {
                if next.contains(k) {
                    let a = choose|a: int| 0 <= a < next.len() && next[a] == k;
                    if a < i {
                        assert(prior[a] == k);
                    }
                }
                if prior.contains(k) {
                    let a = choose|a: int| 0 <= a < prior.len() && prior[a] == k;
                    assert(next[a] == k);
                }
                if k == name {
                    assert(next[i as int] == k);
                }
            }
            if name != me@ {
                assert(next.to_set().remove(me@) =~= prior.to_set().remove(me@).insert(name));
            } else {
                assert(next.to_set().remove(me@) =~= prior.to_set().remove(me@));
            }
        }
        i = i + 1;
    }
    proof {
        assert(nv.take(n as int) =~= nv);
        lemma_ordered(name_views(list@), nv.to_set().remove(me@));
    }
    list
}

impl DkmsService {
    /// Lets an application in and lists everyone that it asks keys for, in order and
    /// each once. A request over the limits is refused.
    pub fn enc_targets(
        &self,
        master: &SaeId,
        slave: &SaeId,
        body: &Etsi014KeyRequest,
        extra: Option<&str>,
    ) -> (r: Result<Vec<SaeId>, DkmsError>)
        requires
            self.inv(),
        ensures
            ({
                let all = target_set(slave@, *body, text_option(extra));
                match r {
                    Ok(v) => {
                        &&& self@.authorized(master@)
                        &&& limit_violation(body.number, body.size, all.len()) is None
                        &&& sae_views(v@) == ordered(all)
                        &&& listed_in_order(sae_views(v@), all)
                    },
                    Err(e) => if !self@.authorized(master@) {
                        e@ == ErrorView::UnknownSae(master@)
                    } else {
                        limit_violation(body.number, body.size, all.len()) matches Some(m) && e@
                            == ErrorView::BadRequest(m)
                    },
                }
            }),
    {
        match self.authorize_local_sae(master) {
            Err(e) => {
                return Err(e);
            },
            Ok(_) => {},
        }
        let ghost all = target_set(slave@, *body, text_option(extra));
        let mut list: Vec<String> = Vec::new();
        assert(name_views(list@).to_set() =~= Set::<Seq<char>>::empty());
        add_name(&mut list, slave.as_str());
        if let Some(v) = &body.additional_slave_sae_ids {
            add_names(&mut list, v);
        }
        if let Some(t) = extra {
            let names = split_names(t);
            add_names(&mut list, &names);
        }
        proof {
            assert(name_views(list@).to_set() =~= all);
            lemma_ordered(name_views(list@), all);
        }
        match check_request_limits(body, list.len()) {
            Err(e) => {
                return Err(e);
            },
            Ok(_) => {},
        }
        let n: usize = list.len();
        let mut out: Vec<SaeId> = Vec::new();
        let mut i: usize = 0;
        while i < n
            invariant
                n == list@.len(),
                i <= n,
                out@.len() == i,
                forall|j: int| 0 <= j < i ==> (#[trigger] out@[j])@ == list@[j]@,
            decreases n - i,
        {
            out.push(SaeId::new(list[i].as_str()));
            i = i + 1;
        }
        assert(sae_views(out@) =~= name_views(list@));
        Ok(out)
    }

    /// Plans a request for applications whose nodes were looked up: those of this
    /// node, and those of each other node. A request is refused that is for too many
    /// nodes, that names a level there is not, or that insists on QKD where there is
    /// no QKD path.
    pub fn plan_enc_keys(&self, body: &Etsi014KeyRequest, targets: &Vec<SaeId>, nodes: &Vec<NodeId>) -> (r:
        Result<EncPlan, DkmsError>)
        requires
            self.inv(),
            targets@.len() == nodes@.len(),
        ensures
            ({
                let tv = sae_views(targets@);
                let nv = node_ids(nodes@);
                let me = self.cfg.node_id@;
                match r {
                    Ok(p) => {
                        &&& self@.plan_violation(*body, nv) is None
                        &&& sae_views(p.local@) == members(tv, nv, me)
                        &&& group_views(p.remote@) == grouped(tv, nv, remote_nodes(nv, me))
                        &&& Ok::<_, Seq<char>>(p.level) == asked_level(*body)
                        &&& p.number == body.number
                        &&& p.size_bytes == bytes_of_bits(body.size as nat)
                        &&& p.size_bytes * 8 >= body.size
                        &&& p.size_bytes * 8 < body.size + 8
                        &&& asked_level(*body) matches Ok(Some(l)) ==> p.level == Some(l)
                        &&& forall|i: int|
                            0 <= i < nodes@.len() && (#[trigger] nodes@[i])@ == me ==> sae_views(
                                p.local@,
                            ).contains(targets@[i]@)
                        &&& p.cost_per_peer == capped(
                            cost_of(
                                bytes_of_bits(body.size as nat),
                                body.number as nat,
                                1,
                                self@.token_unit(),
                            ) as int,
                        )
                    },
                    Err(e) => self@.plan_violation(*body, nv) matches Some(m) && e@
                        == ErrorView::BadRequest(m),
                }
            }),
    {
        let ghost tv = sae_views(targets@);
        let ghost nv = node_ids(nodes@);
        let me = self.cfg.node_id.as_str();
        let remote = remote_names(nodes, me);
        let ghost rv = name_views(remote@);
        assert(rv.len() == remote@.len());
        if remote.len() > self.cfg.request.max_concurrent_peers {
            let head = join3(
                "too many destination DKMSs (",
                decimal_text(remote.len() as u64).as_str(),
                "), max ",
            );
            let max = decimal_text(self.cfg.request.max_concurrent_peers as u64);
            return Err(DkmsError::BadRequest(join2(head.as_str(), max.as_str())));
        }
        let level = match requested(body) {
            Ok(l) => l,
            Err(m) => {
                return Err(DkmsError::BadRequest(m));
            },
        };
        let n: usize = remote.len();
        let mut groups: Vec<PeerGroup> = Vec::new();
        let mut i: usize = 0;
        assert(rv.skip(0) =~= rv);
        while i < n
            invariant
                self.inv(),
                targets@.len() == nodes@.len(),
                tv == sae_views(targets@),
                nv == node_ids(nodes@),
                rv == name_views(remote@),
                rv == remote_nodes(nv, self.cfg.node_id@),
                rv.len() <= self.cfg.request.max_concurrent_peers,
                asked_level(*body) == Ok::<Option<SecurityLevel>, Seq<char>>(level),
                n == remote@.len(),
                i <= n,
                groups@.len() == i,
                forall|j: int|
                    0 <= j < i ==> (#[trigger] groups@[j])@ == (GroupView {
                        node: rv[j],
                        saes: members(tv, nv, rv[j]),
                    }),
                first_lacking(self.cfg, self@.gen, level, rv) == first_lacking(
                    self.cfg,
                    self@.gen,
                    level,
                    rv.skip(i as int),
                ),
            decreases n - i,
        {
            let peer = remote[i].as_str();
            assert(rv.skip(i as int)[0] == peer@);
            assert(rv.skip(i as int).drop_first() =~= rv.skip(i + 1));
            let effective = match level {
                Some(l) => l,
                None => self.cfg.security_level_for(peer),
            };
            let path: Option<bool> = match &self.generator {
                Some(g) => g.qkd_available(peer),
                None => None,
            };
            if effective == SecurityLevel::StrictQkd && path == Some(false) {
                assert(lacks_path(self.cfg, self@.gen, level, peer@));
                return Err(
                    DkmsError::BadRequest(
                        join2("strict_qkd requested but SDN reports no QKD path to dkms ", peer),
                    ),
                );
            }
            assert(!lacks_path(self.cfg, self@.gen, level, peer@));
            groups.push(
                PeerGroup { node: NodeId::new(peer), saes: members_of(targets, nodes, peer) },
            );
            i = i + 1;
        }
        let local = members_of(targets, nodes, me);
        proof {
            assert forall|i: int| 0 <= i < nodes@.len() && (#[trigger] nodes@[i])@ == me@ implies sae_views(
                local@,
            ).contains(targets@[i]@) by {
                assert(nv[i] == nodes@[i]@ && tv[i] == targets@[i]@);
                every_target_has_a_group(tv, nv, me@, i);
            }
        }
        assert(group_views(groups@) =~= grouped(tv, nv, rv));
        let bits: u64 = body.size as u64;
        let size_bytes: u64 = bits / 8 + if bits % 8 == 0 { 0u64 } else { 1u64 };
        assert(size_bytes == bytes_of_bits(body.size as nat));
        let cost: u64 = compute_cost(
            size_bytes,
            body.number as u64,
            1,
            self.cfg.sae.token_unit_bytes as u64,
        );
        Ok(
            EncPlan {
                local,
                remote: groups,
                level,
                number: body.number,
                size_bytes: size_bytes as usize,
                cost_per_peer: cost,
            },
        )
    }
}

/// Every target is served: it is among those of this node or of exactly the node
/// that it belongs to, which is told.
pub proof fn every_target_has_a_group(
    targets: Seq<Seq<char>>,
    nodes: Seq<Seq<char>>,
    me: Seq<char>,
    i: int,
)
    requires
        targets.len() == nodes.len(),
        0 <= i < targets.len(),
    ensures
        members(targets, nodes, nodes[i]).contains(targets[i]),
        nodes[i] != me ==> nodes.to_set().remove(me).contains(nodes[i]),
    decreases targets.len(),
{
    let node = nodes[i];
    let before = members(targets.drop_last(), nodes.drop_last(), node);
    if i < targets.len() - 1 {
        every_target_has_a_group(targets.drop_last(), nodes.drop_last(), me, i);
        let a = choose|a: int| 0 <= a < before.len() && before[a] == targets[i];
        let all = members(targets, nodes, node);
        assert(all[a] == targets[i]);
    } else {
        let all = members(targets, nodes, node);
        assert(all[before.len() as int] == targets[i]);
    }
}

} // verus!
