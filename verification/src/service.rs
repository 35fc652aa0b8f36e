//! The service of a node: hands out session keys to applications, takes those of
//! other nodes, and keeps the transport keys that both rest on.
use crate::ack_socket::{AcksView, BatchedAckClient};
use crate::admission::{Admission, AdmissionView};
use crate::buffers::{BufferPool, PoolView};
use crate::config::DkmsConfig;
use crate::e2e::{E2e, E2eView};
use crate::error::{DkmsError, ErrorView};
use crate::etsi::{Etsi014KeyRequest, Etsi014Status};
use crate::flow_stats::{FlowStats, FlowView};
use crate::generator::{Generator, GeneratorView};
use crate::ids::{NodeId, SaeId};
use crate::peers::{text_views, IncarnationsView, PeerIncarnations, PeerRegistry, RegistryView};
use crate::pending::{PendingKeys, PendingStore};
use crate::table::Table;
use crate::text::{contains_text, decimal, decimal_text, join2, join3, text_contains, text_eq};
use crate::token_bucket::{BucketsView, SaeBuckets};
use vstd::prelude::*;
use vstd::string::*;

pub mod control;
pub mod delivery;
pub mod distribution;
pub mod incoming;
pub mod laws;
pub mod outcomes;
pub mod planning;
pub mod rules;
pub mod session;

verus! {

/// Most keys that one request may ask for.
pub const MAX_KEY_PER_REQUEST: u32 = 64;

/// Longest key that may be asked for, in bits.
pub const MAX_KEY_SIZE_BITS: u32 = 4096;

/// Shortest key that may be asked for, in bits.
pub const MIN_KEY_SIZE_BITS: u32 = 64;

/// Most applications that one key may be for.
pub const MAX_SAE_ID_COUNT: usize = 16;

/// What is wrong with a request by the limits that are announced, if anything is.
pub open spec fn limit_violation(number: u32, size: u32, n_saes: nat) -> Option<Seq<char>> {
    if number > MAX_KEY_PER_REQUEST {
        Some("number "@ + decimal(number as nat) + " exceeds max_key_per_request 64"@)
    } else if size % 8 != 0 {
        Some("size "@ + decimal(size as nat) + " is not a multiple of 8 bits"@)
    } else if size < MIN_KEY_SIZE_BITS || size > MAX_KEY_SIZE_BITS {
        Some("size "@ + decimal(size as nat) + " outside [64, 4096] bits"@)
    } else if n_saes > MAX_SAE_ID_COUNT {
        Some(decimal(n_saes) + " destination SAEs exceeds max_SAE_ID_count 16"@)
    } else {
        None
    }
}

/// Holds a request to the limits that are announced. What is over a limit is
/// refused, not cut down.
pub fn check_request_limits(body: &Etsi014KeyRequest, n_saes: usize) -> (r: Result<(), DkmsError>)
    ensures
        match (r, limit_violation(body.number, body.size, n_saes as nat)) {
            (Ok(_), None) => true,
            (Err(e), Some(m)) => e@ == ErrorView::BadRequest(m),
            _ => false,
        },
{
    if body.number > MAX_KEY_PER_REQUEST {
        return Err(
            DkmsError::BadRequest(
                join3(
                    "number ",
                    decimal_text(body.number as u64).as_str(),
                    " exceeds max_key_per_request 64",
                ),
            ),
        );
    }
    if body.size % 8 != 0 {
        return Err(
            DkmsError::BadRequest(
                join3(
                    "size ",
                    decimal_text(body.size as u64).as_str(),
                    " is not a multiple of 8 bits",
                ),
            ),
        );
    }
    if body.size < MIN_KEY_SIZE_BITS || body.size > MAX_KEY_SIZE_BITS {
        return Err(
            DkmsError::BadRequest(
                join3(
                    "size ",
                    decimal_text(body.size as u64).as_str(),
                    " outside [64, 4096] bits",
                ),
            ),
        );
    }
    if n_saes > MAX_SAE_ID_COUNT {
        return Err(
            DkmsError::BadRequest(
                join2(
                    decimal_text(n_saes as u64).as_str(),
                    " destination SAEs exceeds max_SAE_ID_count 16",
                ),
            ),
        );
    }
    Ok(())
}

/// Whether the bindings say that an application belongs to a node.
pub open spec fn served_by(bindings: Map<Seq<char>, Seq<char>>, node: Seq<char>, sae: Seq<char>) -> bool {
    bindings.contains_pair(sae, node)
}

/// Whether this node serves an application: only if the bindings say so.
pub fn sae_served_locally(sae_bindings: &Table<String>, node_id: &str, requester: &SaeId) -> (r: bool)
    requires
        sae_bindings.inv(),
    ensures
        r == served_by(text_views(sae_bindings@), node_id@, requester@),
{
    match sae_bindings.get(requester.as_str()) {
        Some(node) => text_eq(node.as_str(), node_id),
        None => false,
    }
}

/// The peer whose refusal shows that it has lost the transport keys that this node
/// holds for it.
pub open spec fn stale_peer(e: ErrorView) -> Option<Seq<char>> {
    match e {
        ErrorView::PeerRejected { peer, body, .. } => if contains_text(body, "not in buffer_dec"@) {
            Some(peer)
        } else {
            None
        },
        _ => None,
    }
}

pub fn peer_with_stale_transport_buffer(e: &DkmsError) -> (r: Option<&str>)
    ensures
        match r {
            Some(p) => stale_peer(e@) == Some(p@),
            None => stale_peer(e@) is None,
        },
{
    match e {
        DkmsError::PeerRejected { peer, body, .. } => if text_contains(
            body.as_str(),
            "not in buffer_dec",
        ) {
            Some(peer.as_str())
        } else {
            None
        },
        _ => None,
    }
}

/// A peer that lost a transport key is recognised by what it answers.
pub proof fn lost_transport_key_is_recognised(
    missing: DkmsError,
    peer: Seq<char>,
    status: u16,
)
    requires
        missing is TransportKeyMissing,
    ensures
        stale_peer(ErrorView::PeerRejected { peer, status, body: missing.text_spec() }) == Some(peer),
{
    let p = missing->TransportKeyMissing_peer;
    let key_id = missing->TransportKeyMissing_key_id;
    reveal_strlit("not in buffer_dec");
    reveal_strlit(" not in buffer_dec[");
    let pre = "transport key "@ + key_id@;
    let text = missing.text_spec();
    assert(text =~= pre + " not in buffer_dec["@ + p@ + "]"@);
    let at = pre.len() as int + 1;
    assert forall|i: int| 0 <= i < "not in buffer_dec"@.len() implies "not in buffer_dec"@[i]
        == " not in buffer_dec["@[i + 1] by {
    }
    assert(text.subrange(at, at + "not in buffer_dec"@.len()) =~= "not in buffer_dec"@);
    assert(crate::text::occurs_at(text, "not in buffer_dec"@, at));
}

/// The service with all that it keeps.
pub struct DkmsService {
    pub cfg: DkmsConfig,
    pub pool: BufferPool,
    pub pending: PendingStore,
    pub buckets: SaeBuckets,
    pub peers: PeerRegistry,
    /// Whether there is a client that reaches other nodes.
    pub has_peer_client: bool,
    pub generator: Option<Generator>,
    pub ack_client: Option<BatchedAckClient>,
    pub flow: FlowStats,
    pub admission: Admission,
    pub peer_incarnations: PeerIncarnations,
    pub e2e: E2e,
}

pub struct ServiceView {
    pub cfg: DkmsConfig,
    pub pool: PoolView,
    pub pending: PendingKeys,
    pub buckets: BucketsView,
    pub peers: RegistryView,
    pub has_peer_client: bool,
    pub gen: Option<GeneratorView>,
    pub acks: Option<AcksView>,
    pub flow: FlowView,
    pub admission: AdmissionView,
    pub incarnations: IncarnationsView,
    pub e2e: E2eView,
}

pub open spec fn gen_view(g: Option<Generator>) -> Option<GeneratorView> {
    match g {
        Some(g) => Some(g@),
        None => None,
    }
}

pub open spec fn acks_view(a: Option<BatchedAckClient>) -> Option<AcksView> {
    match a {
        Some(a) => Some(a@),
        None => None,
    }
}

impl View for DkmsService {
    type V = ServiceView;

    open spec fn view(&self) -> ServiceView {
        ServiceView {
            cfg: self.cfg,
            pool: self.pool@,
            pending: self.pending@,
            buckets: self.buckets@,
            peers: self.peers@,
            has_peer_client: self.has_peer_client,
            gen: gen_view(self.generator),
            acks: acks_view(self.ack_client),
            flow: self.flow@,
            admission: self.admission@,
            incarnations: self.peer_incarnations@,
            e2e: self.e2e@,
        }
    }
}

impl ServiceView {
    /// Whether an application may use this node.
    pub open spec fn authorized(self, sae: Seq<char>) -> bool {
        !self.cfg.sae.enforce_authorization || served_by(
            text_views(self.cfg.sae_bindings@),
            self.cfg.node_id@,
            sae,
        )
    }
}

impl DkmsService {
    pub open spec fn inv(self) -> bool {
        &&& self.cfg.inv()
        &&& self.pool.inv()
        &&& self.pending.inv()
        &&& self.buckets.inv()
        &&& self.peers.inv()
        &&& self.flow.inv()
        &&& self.peer_incarnations.inv()
        &&& self.e2e.inv()
        &&& (self.generator matches Some(g) ==> g.inv())
        &&& (self.ack_client matches Some(a) ==> a.inv())
    }

    /// Lets an application in whose certificate was verified: only one that this
    /// node serves, unless authorization is switched off.
    pub fn authorize_local_sae(&self, requester: &SaeId) -> (r: Result<(), DkmsError>)
        requires
            self.inv(),
        ensures
            match r {
                Ok(_) => self@.authorized(requester@),
                Err(e) => !self@.authorized(requester@) && e@ == ErrorView::UnknownSae(requester@),
            },
    {
        if !self.cfg.sae.enforce_authorization {
            return Ok(());
        }
        if sae_served_locally(&self.cfg.sae_bindings, self.cfg.node_id.as_str(), requester) {
            Ok(())
        } else {
            Err(DkmsError::UnknownSae(requester.copy()))
        }
    }

    /// A node that asks for something must be known.
    pub fn require_known_peer(&self, peer: &NodeId) -> (r: Result<(), DkmsError>)
        requires
            self.inv(),
        ensures
            match r {
                Ok(_) => self@.peers.peers.dom().contains(peer@),
                Err(e) => !self@.peers.peers.dom().contains(peer@) && e@ == ErrorView::BadRequest(
                    "peer dkms "@ + peer@ + " not configured"@,
                ),
            },
    {
        match self.peers.get(peer.as_str()) {
            Some(_) => Ok(()),
            None => Err(
                DkmsError::BadRequest(join3("peer dkms ", peer.as_str(), " not configured")),
            ),
        }
    }

    /// What an application is told of its keys for another, which belongs to the
    /// node that was looked up, or to this one if that failed.
    pub fn status_for(&self, requester: &SaeId, slave: &SaeId, target: Option<NodeId>) -> (r: Result<
        Etsi014Status,
        DkmsError,
    >)
        requires
            self.inv(),
        ensures
            match r {
                Ok(s) => {
                    let node = match target {
                        Some(n) => n@,
                        None => self.cfg.node_id@,
                    };
                    let stored = self@.pool.of(node).enc_len();
                    &&& self@.authorized(requester@)
                    &&& s.source_kme_id@ == self.cfg.node_id@
                    &&& s.target_kme_id@ == node
                    &&& s.master_sae_id@ == requester@
                    &&& s.slave_sae_id@ == slave@
                    &&& s.key_size == 256
                    &&& s.stored_key_count == (if stored > usize::MAX {
                        usize::MAX as int
                    } else {
                        stored as int
                    })
                    &&& self@.pool.of(node).qkd.keys.len() + self@.pool.of(node).pqc.keys.len()
                        <= usize::MAX ==> s.stored_key_count == self@.pool.of(node).qkd.keys.len()
                        + self@.pool.of(node).pqc.keys.len()
                    &&& s.max_key_count == self.cfg.buffer.capacity_per_peer
                    &&& s.max_key_per_request == MAX_KEY_PER_REQUEST
                    &&& s.max_key_size == MAX_KEY_SIZE_BITS
                    &&& s.min_key_size == MIN_KEY_SIZE_BITS
                    &&& s.max_sae_id_count == MAX_SAE_ID_COUNT
                },
                Err(e) => !self@.authorized(requester@) && e@ == ErrorView::UnknownSae(requester@),
            },
    {
        match self.authorize_local_sae(requester) {
            Err(e) => {
                return Err(e);
            },
            Ok(_) => {},
        }
        let node = match target {
            Some(n) => n.into_inner(),
            None => self.cfg.node_id.as_str().to_owned(),
        };
        let stored: usize = self.pool.enc_len(node.as_str());
        Ok(
            Etsi014Status {
                source_kme_id: self.cfg.node_id.as_str().to_owned(),
                target_kme_id: node,
                master_sae_id: requester.as_str().to_owned(),
                slave_sae_id: slave.as_str().to_owned(),
                key_size: 256,
                stored_key_count: stored as u64,
                max_key_count: self.cfg.buffer.capacity_per_peer as u64,
                max_key_per_request: MAX_KEY_PER_REQUEST,
                max_key_size: MAX_KEY_SIZE_BITS,
                min_key_size: MIN_KEY_SIZE_BITS,
                max_sae_id_count: MAX_SAE_ID_COUNT as u32,
            },
        )
    }
}

/// The limits that are announced are those that requests are held to: a request
/// passes if and only if it stays within them.
pub proof fn announced_limits_are_kept(number: u32, size: u32, n_saes: nat)
    ensures
        limit_violation(number, size, n_saes) is None <==> number <= MAX_KEY_PER_REQUEST && size % 8
            == 0 && MIN_KEY_SIZE_BITS <= size <= MAX_KEY_SIZE_BITS && n_saes <= MAX_SAE_ID_COUNT,
{
}

/// Without bindings nobody is served.
pub proof fn nobody_is_served_without_bindings(node: Seq<char>, sae: Seq<char>)
    ensures
        !served_by(Map::<Seq<char>, Seq<char>>::empty(), node, sae),
{
}

/// What may be asked for: up to 64 keys, of 64 to 4096 bits and of whole bytes, for
/// up to 16 applications.
pub proof fn requests_have_their_measure(number: u32, size: u32, n_saes: nat)
    ensures
        limit_violation(number, size, n_saes) is None <==> number <= 64 && 64 <= size <= 4096
            && size % 8 == 0 && n_saes <= 16,
{
}

/// An application may use the node that its binding names, and no other.
pub proof fn applications_use_their_own_node(s: ServiceView, sae: Seq<char>)
    ensures
        s.cfg.sae.enforce_authorization ==> (s.authorized(sae) <==> s.cfg.sae_bindings@.dom().contains(
            sae,
        ) && s.cfg.sae_bindings@[sae]@ == s.cfg.node_id@),
        !s.cfg.sae.enforce_authorization ==> s.authorized(sae),
{
}

/// Only a refusal that speaks of a lost transport key makes a peer stale.
pub proof fn other_failures_make_no_peer_stale(e: ErrorView)
    ensures
        !(e is PeerRejected) ==> stale_peer(e) is None,
        e matches ErrorView::PeerRejected { peer, status, body } && !contains_text(
            body,
            "not in buffer_dec"@,
        ) ==> stale_peer(e) is None,
{
}

} // verus!
