//! The peers of a node: where they are, and which run of their process they are in.
use crate::clock::Clock;
use crate::config::{copy_opt, opt_text, PeerCfg, PeerCfgView, PeerTransport};
use crate::table::Table;
use crate::text::{contains_text, join2, text_contains, text_eq};
use vstd::prelude::*;
use vstd::string::*;

verus! {

/// What the network controller says of a peer: where it is, not how to deal
/// with it.
#[derive(Debug, PartialEq, Eq)]
pub struct PeerFromSdn {
    pub dkms_id: String,
    pub orr_id: String,
    /// Address of the peer's listener.
    pub endpoint: String,
}

#[verifier::ext_equal]
pub struct PeerFromSdnView {
    pub dkms_id: Seq<char>,
    pub orr_id: Seq<char>,
    pub endpoint: Seq<char>,
}

impl View for PeerFromSdn {
    type V = PeerFromSdnView;

    open spec fn view(&self) -> PeerFromSdnView {
        PeerFromSdnView {
            dkms_id: self.dkms_id@,
            orr_id: self.orr_id@,
            endpoint: self.endpoint@,
        }
    }
}

/// An address as a URL: as it is if it has a scheme, else with TLS.
pub open spec fn endpoint_url(endpoint: Seq<char>) -> Seq<char> {
    if contains_text(endpoint, "//"@) {
        endpoint
    } else {
        "https://"@ + endpoint
    }
}

/// What is known of a peer once the controller has spoken: its place comes from
/// the controller, the rest stays as it was.
pub open spec fn merged(current: Map<Seq<char>, PeerCfgView>, p: PeerFromSdnView) -> PeerCfgView {
    if current.dom().contains(p.dkms_id) {
        PeerCfgView {
            endpoint: endpoint_url(p.endpoint),
            orr_id: Some(p.orr_id),
            ..current[p.dkms_id]
        }
    } else {
        PeerCfgView {
            endpoint: endpoint_url(p.endpoint),
            orr_id: Some(p.orr_id),
            transport: PeerTransport::Orr,
            sni: None,
            max_hops: None,
            orr_path: None,
            security_level: None,
        }
    }
}

/// The peers once the controller's list was applied: those that were configured
/// locally stay, and the list goes over them.
pub open spec fn applied(
    current: Map<Seq<char>, PeerCfgView>,
    local: Set<Seq<char>>,
    list: Seq<PeerFromSdnView>,
) -> Map<Seq<char>, PeerCfgView>
    decreases list.len(),
{
    if list.len() == 0 {
        current.restrict(local)
    } else {
        applied(current, local, list.drop_last()).insert(
            list.last().dkms_id,
            merged(current, list.last()),
        )
    }
}

/// The peers that are refilled through a relay, and which.
pub open spec fn relays(peers: Map<Seq<char>, PeerCfgView>) -> Map<Seq<char>, Seq<char>> {
    Map::new(
        |p: Seq<char>|
            peers.dom().contains(p) && peers[p].transport == PeerTransport::Orr
                && peers[p].orr_id is Some,
        |p: Seq<char>| peers[p].orr_id->0,
    )
}

pub open spec fn listed(list: Seq<PeerFromSdnView>, id: Seq<char>) -> bool {
    exists|i: int| 0 <= i < list.len() && #[trigger] list[i].dkms_id == id
}

/// Who is a peer after a list was applied: who was configured locally, and who
/// is on the list.
pub proof fn applied_peers_are_local_or_listed(
    current: Map<Seq<char>, PeerCfgView>,
    local: Set<Seq<char>>,
    list: Seq<PeerFromSdnView>,
    id: Seq<char>,
)
    ensures
        applied(current, local, list).dom().contains(id) <==> listed(list, id) || (
        current.dom().contains(id) && local.contains(id)),
        !listed(list, id) && current.dom().contains(id) && local.contains(id) ==> applied(
            current,
            local,
            list,
        )[id] == current[id],
        listed(list, id) ==> exists|i: int|
            0 <= i < list.len() && #[trigger] list[i].dkms_id == id && applied(
                current,
                local,
                list,
            )[id] == merged(current, list[i]) && (forall|j: int|
                i < j < list.len() ==> #[trigger] list[j].dkms_id != id),
    decreases list.len(),
{
    if list.len() > 0 {
        let front = list.drop_last();
        applied_peers_are_local_or_listed(current, local, front, id);
        let last = list.last();
        assert(list[list.len() - 1] == last);
        if last.dkms_id != id {
            if listed(front, id) {
                let i = choose|i: int|
                    0 <= i < front.len() && #[trigger] front[i].dkms_id == id && applied(
                        current,
                        local,
                        front,
                    )[id] == merged(current, front[i]) && (forall|j: int|
                        i < j < front.len() ==> #[trigger] front[j].dkms_id != id);
                assert(list[i].dkms_id == id);
                assert forall|j: int| i < j < list.len() implies #[trigger] list[j].dkms_id
                    != id by {
                    if j < front.len() {
                        assert(front[j].dkms_id != id);
                    }
                }
            }
            if listed(list, id) {
                let i = choose|i: int| 0 <= i < list.len() && #[trigger] list[i].dkms_id == id;
                assert(front[i].dkms_id == id);
            }
        }
    }
}

/// The controller may move a peer, but never takes its local policy over.
pub proof fn local_policy_survives(
    current: Map<Seq<char>, PeerCfgView>,
    local: Set<Seq<char>>,
    list: Seq<PeerFromSdnView>,
    id: Seq<char>,
)
    requires
        current.dom().contains(id),
        applied(current, local, list).dom().contains(id),
    ensures
        ({
            let a = applied(current, local, list)[id];
            let b = current[id];
            &&& a.max_hops == b.max_hops
            &&& a.security_level == b.security_level
            &&& a.sni == b.sni
            &&& a.transport == b.transport
            &&& a.orr_path == b.orr_path
        }),
{
    applied_peers_are_local_or_listed(current, local, list, id);
}

/// Applying the same list again changes nothing.
pub proof fn applying_twice_changes_nothing(
    current: Map<Seq<char>, PeerCfgView>,
    local: Set<Seq<char>>,
    list: Seq<PeerFromSdnView>,
)
    ensures
        applied(applied(current, local, list), local, list) == applied(current, local, list),
{
    let once = applied(current, local, list);
    let twice = applied(once, local, list);
    assert forall|id: Seq<char>| #[trigger]
        once.dom().contains(id) == twice.dom().contains(id) && (once.dom().contains(id) ==> once[id]
            == twice[id]) by {
        applied_peers_are_local_or_listed(current, local, list, id);
        applied_peers_are_local_or_listed(once, local, list, id);
        if listed(list, id) {
            let i = choose|i: int|
                0 <= i < list.len() && #[trigger] list[i].dkms_id == id && once[id] == merged(
                    current,
                    list[i],
                ) && (forall|j: int| i < j < list.len() ==> #[trigger] list[j].dkms_id != id);
            let k = choose|k: int|
                0 <= k < list.len() && #[trigger] list[k].dkms_id == id && twice[id] == merged(
                    once,
                    list[k],
                ) && (forall|j: int| k < j < list.len() ==> #[trigger] list[j].dkms_id != id);
            assert(i == k);
        }
    }
    assert(once =~= twice);
}

#[verifier::ext_equal]
pub struct RegistryView {
    pub peers: Map<Seq<char>, PeerCfgView>,
    /// Peers of the configuration file, which are never taken out.
    pub local: Set<Seq<char>>,
    pub orr: Map<Seq<char>, Seq<char>>,
}

pub open spec fn cfg_views(m: Map<Seq<char>, PeerCfg>) -> Map<Seq<char>, PeerCfgView> {
    Map::new(|p: Seq<char>| m.dom().contains(p), |p: Seq<char>| m[p]@)
}

pub open spec fn text_views(m: Map<Seq<char>, String>) -> Map<Seq<char>, Seq<char>> {
    Map::new(|p: Seq<char>| m.dom().contains(p), |p: Seq<char>| m[p]@)
}

/// The peers, as the configuration and the controller describe them.
pub struct PeerRegistry {
    inner: Table<PeerCfg>,
    local: Vec<String>,
    orr: Table<String>,
}

impl View for PeerRegistry {
    type V = RegistryView;

    closed spec fn view(&self) -> RegistryView {
        RegistryView {
            peers: cfg_views(self.inner@),
            local: self.local@.map_values(|s: String| s@).to_set(),
            orr: text_views(self.orr@),
        }
    }
}

fn derive_orr(peers: &Table<PeerCfg>) -> (r: Table<String>)
    requires
        peers.inv(),
    ensures
        r.inv(),
        text_views(r@) == relays(cfg_views(peers@)),
{
    let mut out: Table<String> = Table::new();
    let n: usize = peers.len();
    let mut i: usize = 0;
    proof {
        peers.lemma_keys();
    }
    let ghost keys = peers.keys();
    let ghost want = relays(cfg_views(peers@));
    while i < n
        invariant
            peers.inv(),
            keys == peers.keys(),
            n == keys.len(),
            i <= n,
            out.inv(),
            want == relays(cfg_views(peers@)),
            forall|p: Seq<char>|
                #[trigger] out@.dom().contains(p) ==> want.dom().contains(p) && out@[p]@ == want[p],
            forall|j: int|
                0 <= j < i && want.dom().contains(#[trigger] keys[j]) ==> out@.dom().contains(
                    keys[j],
                ),
        decreases n - i,
    {
        let (id, pc) = peers.entry(i);
        let ghost prior = out@;
        if pc.transport == PeerTransport::Orr {
            if let Some(o) = &pc.orr_id {
                out.insert(id, o.clone());
                assert(want.dom().contains(id@));
            }
        }
        i = i + 1;
    }
    proof {
        assert forall|p: Seq<char>| want.dom().contains(p) implies #[trigger] out@.dom().contains(
            p,
        ) by {
            assert(peers@.dom().contains(p));
            assert(keys.to_set().contains(p));
            let j = choose|j: int| 0 <= j < keys.len() && keys[j] == p;
            assert(want.dom().contains(keys[j]));
        }
        assert(text_views(out@) =~= want);
    }
    out
}

/// Whether every entry of `a` stands in `b` too.
fn covered(a: &Table<PeerCfg>, b: &Table<PeerCfg>) -> (r: bool)
    requires
        a.inv(),
        b.inv(),
    ensures
        r == (forall|p: Seq<char>| #[trigger]
            a@.dom().contains(p) ==> b@.dom().contains(p) && a@[p]@ == b@[p]@),
{
    let n: usize = a.len();
    let mut i: usize = 0;
    proof {
        a.lemma_keys();
    }
    let ghost keys = a.keys();
    while i < n
        invariant
            a.inv(),
            b.inv(),
            keys == a.keys(),
            n == keys.len(),
            i <= n,
            forall|j: int|
                0 <= j < i ==> b@.dom().contains(#[trigger] keys[j]) && a@[keys[j]]@
                    == b@[keys[j]]@,
        decreases n - i,
    {
        let (id, pc) = a.entry(i);
        match b.get(id) {
            Some(other) => {
                if !pc.same(other) {
                    assert(a@.dom().contains(id@));
                    return false;
                }
            },
            None => {
                assert(a@.dom().contains(id@));
                return false;
            },
        }
        i = i + 1;
    }
    proof {
        assert forall|p: Seq<char>| #[trigger] a@.dom().contains(p) implies b@.dom().contains(p)
            && a@[p]@ == b@[p]@ by {
            assert(keys.to_set().contains(p));
            let j = choose|j: int| 0 <= j < keys.len() && keys[j] == p;
            assert(b@.dom().contains(keys[j]));
        }
    }
    true
}

fn has_text(v: &Vec<String>, s: &str) -> (r: bool)
    ensures
        r == v@.map_values(|x: String| x@).to_set().contains(s@),
{
    let ghost t = v@.map_values(|x: String| x@);
    let mut i: usize = 0;
    while i < v.len()
        invariant
            t == v@.map_values(|x: String| x@),
            i <= v@.len(),
            forall|j: int| 0 <= j < i ==> t[j] != s@,
        decreases v@.len() - i,
    {
        if text_eq(v[i].as_str(), s) {
            assert(t[i as int] == s@);
            return true;
        }
        i = i + 1;
    }
    false
}

/// The address of a peer as a URL.
fn url_of(endpoint: &str) -> (r: String)
    ensures
        r@ == endpoint_url(endpoint@),
{
    if text_contains(endpoint, "//") {
        endpoint.to_owned()
    } else {
        join2("https://", endpoint)
    }
}

impl PeerRegistry {
    pub closed spec fn inv(self) -> bool {
        &&& self.inner.inv()
        &&& self.orr.inv()
        &&& self@.orr == relays(self@.peers)
        &&& self@.local.subset_of(self@.peers.dom())
    }

    /// Who was configured locally is a peer, and the relays are those of the peers.
    pub proof fn lemma_local_peers(self)
        requires
            self.inv(),
        ensures
            self@.local.subset_of(self@.peers.dom()),
            self@.orr == relays(self@.peers),
    {
    }

    /// Starts with the peers of the configuration file.
    pub fn from_config(seed: Table<PeerCfg>) -> (r: Self)
        requires
            seed.inv(),
        ensures
            r.inv(),
            r@ == (RegistryView {
                peers: cfg_views(seed@),
                local: seed@.dom(),
                orr: relays(cfg_views(seed@)),
            }),
    {
        let orr = derive_orr(&seed);
        let local = seed.key_list();
        proof {
            seed.lemma_keys();
        }
        PeerRegistry { inner: seed, local, orr }
    }

    pub fn get(&self, dkms_id: &str) -> (r: Option<PeerCfg>)
        requires
            self.inv(),
        ensures
            match r {
                Some(p) => self@.peers.contains_pair(dkms_id@, p@),
                None => !self@.peers.dom().contains(dkms_id@),
            },
    {
        match self.inner.get(dkms_id) {
            Some(p) => Some(p.copy()),
            None => None,
        }
    }

    /// All peers.
    pub fn snapshot(&self) -> (r: &Table<PeerCfg>)
        requires
            self.inv(),
        ensures
            r.inv(),
            cfg_views(r@) == self@.peers,
    {
        &self.inner
    }

    /// The peers that are refilled through a relay, and which.
    pub fn orr_map(&self) -> (r: &Table<String>)
        requires
            self.inv(),
        ensures
            r.inv(),
            text_views(r@) == relays(self@.peers),
    {
        &self.orr
    }

    /// Applies the controller's list and says whether anything changed.
    pub fn apply_from_sdn(&mut self, peers: &[PeerFromSdn]) -> (r: bool)
        requires
            old(self).inv(),
        ensures
            final(self).inv(),
            ({
                let list = peers@.map_values(|p: PeerFromSdn| p@);
                let next = applied(old(self)@.peers, old(self)@.local, list);
                &&& r == (old(self)@.peers != next)
                &&& final(self)@ == (RegistryView {
                    peers: next,
                    local: old(self)@.local,
                    orr: relays(next),
                })
            }),
    {
        let ghost before = self@;
        let ghost cur = self@.peers;
        let ghost list = peers@.map_values(|p: PeerFromSdn| p@);
        let mut next: Table<PeerCfg> = Table::new();
        let n: usize = self.inner.len();
        let mut i: usize = 0;
        proof {
            self.inner.lemma_keys();
        }
        let ghost keys = self.inner.keys();
        while i < n
            invariant
                self.inv(),
                self.inner.inv(),
                self@ == before,
                cur == before.peers,
                cur == cfg_views(self.inner@),
                before.local == self.local@.map_values(|s: String| s@).to_set(),
                keys == self.inner.keys(),
                n == keys.len(),
                i <= n,
                next.inv(),
                forall|p: Seq<char>|
                    #[trigger] next@.dom().contains(p) ==> cur.dom().contains(p)
                        && before.local.contains(p) && next@[p]@ == cur[p],
                forall|j: int|
                    0 <= j < i && before.local.contains(#[trigger] keys[j])
                        ==> next@.dom().contains(keys[j]),
            decreases n - i,
        {
            let (id, pc) = self.inner.entry(i);
            if has_text(&self.local, id) {
                next.insert(id, pc.copy());
            }
            i = i + 1;
        }
        proof {
            assert forall|p: Seq<char>|
                cur.restrict(before.local).dom().contains(p) implies #[trigger] next@.dom().contains(
                p,
            ) by {
                assert(self.inner@.dom().contains(p));
                assert(keys.to_set().contains(p));
                let j = choose|j: int| 0 <= j < keys.len() && keys[j] == p;
                assert(before.local.contains(keys[j]));
            }
            assert(cfg_views(next@) =~= cur.restrict(before.local));
            assert(list.take(0) =~= Seq::<PeerFromSdnView>::empty());
        }
        let m: usize = peers.len();
        let mut k: usize = 0;
        while k < m
            invariant
                self.inv(),
                self.inner.inv(),
                self@ == before,
                cur == before.peers,
                cur == cfg_views(self.inner@),
                list == peers@.map_values(|p: PeerFromSdn| p@),
                m == peers@.len(),
                k <= m,
                next.inv(),
                cfg_views(next@) == applied(cur, before.local, list.take(k as int)),
            decreases m - k,
        {
            let p = &peers[k];
            let endpoint = url_of(p.endpoint.as_str());
            let entry = match self.inner.get(p.dkms_id.as_str()) {
                Some(old_cfg) => PeerCfg {
                    endpoint,
                    orr_id: Some(p.orr_id.clone()),
                    sni: copy_opt(&old_cfg.sni),
                    transport: old_cfg.transport,
                    max_hops: old_cfg.max_hops,
                    orr_path: copy_opt(&old_cfg.orr_path),
                    security_level: old_cfg.security_level,
                },
                None => PeerCfg {
                    endpoint,
                    orr_id: Some(p.orr_id.clone()),
                    transport: PeerTransport::Orr,
                    sni: None,
                    max_hops: None,
                    orr_path: None,
                    security_level: None,
                },
            };
            assert(entry@ =~= merged(cur, p@));
            let ghost prior = next@;
            next.insert(p.dkms_id.as_str(), entry);
            proof {
                assert(list.take(k + 1).drop_last() =~= list.take(k as int));
                assert(list.take(k + 1).last() == p@);
                assert(cfg_views(next@) =~= cfg_views(prior).insert(p@.dkms_id, merged(cur, p@)));
            }
            k = k + 1;
        }
        assert(list.take(m as int) =~= list);
        let ghost want = applied(cur, before.local, list);
        let same: bool = covered(&self.inner, &next) && covered(&next, &self.inner);
        proof {
            if same {
                assert forall|p: Seq<char>| #[trigger] cur.dom().contains(p) == want.dom().contains(
                    p,
                ) && (cur.dom().contains(p) ==> cur[p] == want[p]) by {
                    assert(self.inner@.dom().contains(p) ==> next@.dom().contains(p));
                    assert(next@.dom().contains(p) ==> self.inner@.dom().contains(p));
                }
                assert(cur =~= want);
            } else {
                if cur == want {
                    assert forall|p: Seq<char>| #[trigger] self.inner@.dom().contains(
                        p,
                    ) implies next@.dom().contains(p) && self.inner@[p]@ == next@[p]@ by {
                        assert(cur.dom().contains(p));
                        assert(want.dom().contains(p));
                        assert(cur[p] == want[p]);
                    }
                    assert forall|p: Seq<char>| #[trigger] next@.dom().contains(
                        p,
                    ) implies self.inner@.dom().contains(p) && self.inner@[p]@ == next@[p]@ by {
                        assert(want.dom().contains(p));
                        assert(cur.dom().contains(p));
                        assert(cur[p] == want[p]);
                    }
                }
            }
            assert forall|p: Seq<char>| before.local.contains(p) implies want.dom().contains(
                p,
            ) by {
                applied_peers_are_local_or_listed(cur, before.local, list, p);
            }
        }
        if same {
            return false;
        }
        let orr = derive_orr(&next);
        self.orr = orr;
        self.inner = next;
        true
    }
}

#[verifier::ext_equal]
pub struct IncarnationsView {
    /// The last run that each peer was seen in.
    pub seen: Map<Seq<char>, Seq<char>>,
    /// When each peer's restart was last acted upon.
    pub last_wipe: Map<Seq<char>, u64>,
}

impl IncarnationsView {
    /// What is learnt from a peer's run: the run it replaces, if the peer was
    /// restarted and no restart of it was acted upon within the cooldown.
    pub open spec fn noted(
        self,
        peer: Seq<char>,
        incarnation: Seq<char>,
        now_ns: u64,
        cooldown_ns: u64,
    ) -> (Option<Seq<char>>, IncarnationsView) {
        let seen = self.seen.insert(peer, incarnation);
        let elapsed = now_ns - self.last_wipe[peer];
        if !self.seen.dom().contains(peer) || self.seen[peer] == incarnation || (
        self.last_wipe.dom().contains(peer) && elapsed < cooldown_ns && cooldown_ns > 0) {
            (None, IncarnationsView { seen, ..self })
        } else {
            (
                Some(self.seen[peer]),
                IncarnationsView { seen, last_wipe: self.last_wipe.insert(peer, now_ns) },
            )
        }
    }
}

/// Which run of its process each peer is in.
pub struct PeerIncarnations {
    seen: Table<String>,
    last_wipe: Table<u64>,
    clock: Clock,
}

impl View for PeerIncarnations {
    type V = IncarnationsView;

    closed spec fn view(&self) -> IncarnationsView {
        IncarnationsView { seen: text_views(self.seen@), last_wipe: self.last_wipe@ }
    }
}

impl PeerIncarnations {
    pub closed spec fn inv(self) -> bool {
        self.seen.inv() && self.last_wipe.inv()
    }

    pub fn new() -> (r: Self)
        ensures
            r.inv(),
            r@ == (IncarnationsView { seen: Map::empty(), last_wipe: Map::empty() }),
    {
        let r = PeerIncarnations {
            seen: Table::new(),
            last_wipe: Table::new(),
            clock: Clock::start(),
        };
        assert(r@.seen =~= Map::<Seq<char>, Seq<char>>::empty());
        r
    }

    /// Notes the run of a peer without a cooldown: the run that it replaces, if
    /// the peer was restarted.
    pub fn note(&mut self, peer: &str, incarnation: &str) -> (r: Option<String>)
        requires
            old(self).inv(),
        ensures
            final(self).inv(),
            exists|now_ns: u64|
                (opt_text(r), final(self)@) == #[trigger] old(self)@.noted(
                    peer@,
                    incarnation@,
                    now_ns,
                    0,
                ),
    {
        let now_ns: u64 = self.clock.now_ns();
        self.note_at(peer, incarnation, now_ns, 0)
    }

    /// Notes the run of a peer at `now_ns`. A restart is reported once, and not
    /// again within the cooldown: who changes its run with every message cannot
    /// make buffers be thrown away in a loop.
    pub fn note_at(&mut self, peer: &str, incarnation: &str, now_ns: u64, cooldown_ns: u64) -> (r:
        Option<String>)
        requires
            old(self).inv(),
        ensures
            final(self).inv(),
            (opt_text(r), final(self)@) == old(self)@.noted(
                peer@,
                incarnation@,
                now_ns,
                cooldown_ns,
            ),
    {
        let ghost before = self@;
        let ghost seen0 = self.seen@;
        let previous = self.seen.insert(peer, incarnation.to_owned());
        assert(self@.seen =~= before.seen.insert(peer@, incarnation@));
        let previous = match previous {
            Some(p) => p,
            None => {
                return None;
            },
        };
        assert(before.seen[peer@] == previous@);
        if text_eq(previous.as_str(), incarnation) {
            return None;
        }
        if let Some(last) = self.last_wipe.get(peer) {
            if now_ns.saturating_sub(*last) < cooldown_ns {
                return None;
            }
        }
        self.last_wipe.insert(peer, now_ns);
        Some(previous)
    }
}

/// The first time that a peer is heard of is not a restart, and a run that goes
/// on is none either.
pub proof fn only_a_change_is_a_restart(
    v: IncarnationsView,
    peer: Seq<char>,
    incarnation: Seq<char>,
    now_ns: u64,
    cooldown_ns: u64,
)
    requires
        !v.seen.dom().contains(peer) || v.seen[peer] == incarnation,
    ensures
        v.noted(peer, incarnation, now_ns, cooldown_ns).0 is None,
{
}

/// Two restarts of a peer are never reported closer together than the cooldown,
/// whatever it says in between.
pub proof fn restarts_are_reported_a_cooldown_apart(
    v: IncarnationsView,
    peer: Seq<char>,
    first: Seq<char>,
    first_ns: u64,
    second: Seq<char>,
    second_ns: u64,
    cooldown_ns: u64,
)
    requires
        v.noted(peer, first, first_ns, cooldown_ns).0 is Some,
        first_ns <= second_ns < first_ns + cooldown_ns,
    ensures
        v.noted(peer, first, first_ns, cooldown_ns).1.noted(
            peer,
            second,
            second_ns,
            cooldown_ns,
        ).0 is None,
{
}

/// What one peer says does not concern another.
pub proof fn peers_are_noted_apart(
    v: IncarnationsView,
    peer: Seq<char>,
    other: Seq<char>,
    incarnation: Seq<char>,
    now_ns: u64,
    cooldown_ns: u64,
)
    requires
        peer != other,
    ensures
        ({
            let w = v.noted(peer, incarnation, now_ns, cooldown_ns).1;
            &&& w.seen.dom().contains(other) == v.seen.dom().contains(other)
            &&& w.seen[other] == v.seen[other]
            &&& w.last_wipe.dom().contains(other) == v.last_wipe.dom().contains(other)
            &&& w.last_wipe[other] == v.last_wipe[other]
        }),
{
}

/// A run that replaces another is a restart, reported with the run that it replaces,
/// unless one was acted upon within the cooldown; the last run that a peer spoke of
/// is the one that is known, reported or not.
pub proof fn a_change_is_a_restart(
    v: IncarnationsView,
    peer: Seq<char>,
    incarnation: Seq<char>,
    now_ns: u64,
    cooldown_ns: u64,
)
    ensures
        ({
            let (previous, w) = v.noted(peer, incarnation, now_ns, cooldown_ns);
            &&& w.seen.contains_pair(peer, incarnation)
            &&& v.seen.dom().contains(peer) && v.seen[peer] != incarnation && (
            !v.last_wipe.dom().contains(peer) || now_ns >= v.last_wipe[peer] + cooldown_ns) ==> previous
                == Some(v.seen[peer]) && w.last_wipe.contains_pair(peer, now_ns)
            &&& v.last_wipe.dom().contains(peer) && v.last_wipe[peer] <= now_ns < v.last_wipe[peer]
                + cooldown_ns ==> previous is None && w.last_wipe == v.last_wipe
        }),
{
}

/// The controller says where a peer is: the last entry on a peer gives its address,
/// with TLS unless it names a scheme, and its relay, through which its keys go unless
/// it is configured to be reached otherwise.
pub proof fn listed_peer_is_where_the_list_says(
    current: Map<Seq<char>, PeerCfgView>,
    local: Set<Seq<char>>,
    list: Seq<PeerFromSdnView>,
    i: int,
)
    requires
        0 <= i < list.len(),
        forall|j: int| i < j < list.len() ==> (#[trigger] list[j]).dkms_id != list[i].dkms_id,
    ensures
        ({
            let id = list[i].dkms_id;
            let after = applied(current, local, list);
            &&& after.dom().contains(id)
            &&& after[id].orr_id == Some(list[i].orr_id)
            &&& contains_text(list[i].endpoint, "//"@) ==> after[id].endpoint == list[i].endpoint
            &&& !contains_text(list[i].endpoint, "//"@) ==> after[id].endpoint == "https://"@
                + list[i].endpoint
            &&& !current.dom().contains(id) ==> {
                &&& after[id].transport == PeerTransport::Orr
                &&& after[id].security_level is None
                &&& after[id].sni is None
                &&& after[id].max_hops is None
                &&& after[id].orr_path is None
                &&& relays(after).contains_pair(id, list[i].orr_id)
            }
            &&& current.dom().contains(id) && current[id].transport == PeerTransport::Orr
                ==> relays(after).contains_pair(id, list[i].orr_id)
            &&& current.dom().contains(id) && current[id].transport != PeerTransport::Orr
                ==> !relays(after).dom().contains(id)
        }),
{
    let id = list[i].dkms_id;
    applied_peers_are_local_or_listed(current, local, list, id);
    assert(listed(list, id));
    let k = choose|k: int|
        0 <= k < list.len() && #[trigger] list[k].dkms_id == id && applied(current, local, list)[id]
            == merged(current, list[k]) && (forall|j: int|
            k < j < list.len() ==> #[trigger] list[j].dkms_id != id);
    assert(k == i);
}

/// Keys go through a relay to the peers that are reached by one and say which, and to
/// no others.
pub proof fn relays_are_those_of_the_configuration(
    peers: Map<Seq<char>, PeerCfgView>,
    id: Seq<char>,
    relay: Seq<char>,
)
    ensures
        relays(peers).contains_pair(id, relay) <==> peers.dom().contains(id) && peers[id].transport
            == PeerTransport::Orr && peers[id].orr_id == Some(relay),
{
}

} // verus!
