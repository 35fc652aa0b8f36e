//! What operators do with a node.
use crate::ack_socket::BatchedAckClient;
use crate::admission::{Admission, AdmissionView};
use crate::buffers::{BufferPool, PoolView};
use crate::clock::SECOND;
use crate::config::{DkmsConfig, TransportE2eCfg};
use crate::e2e::{E2e, E2eView};
use crate::error::CommonError;
use crate::flow_stats::{FlowStats, FlowView};
use crate::generator::Generator;
use crate::ids::{NodeId, SaeId};
use crate::peers::{IncarnationsView, PeerIncarnations, PeerRegistry};
use crate::pending::{PendingKeys, PendingStore};
use crate::service::{acks_view, gen_view, DkmsService, ServiceView};
use crate::text::chars_of;
use crate::token_bucket::{capped, limits, BucketsView, Level, SaeBuckets};
use crate::unique::{random_uuid, random_shaped};
use vstd::prelude::*;
use vstd::string::*;

verus! {

/// What an operator registers an application with.
#[derive(Debug)]
pub struct RegisterArgs {
    pub sae_id: String,
    pub rate_keys_per_sec: u64,
    pub burst_keys: u64,
}

impl DkmsService {
    /// A service that holds no keys yet and has nobody to make any.
    pub fn new(
        cfg: DkmsConfig,
        peers: PeerRegistry,
        e2e: TransportE2eCfg,
        has_peer_client: bool,
    ) -> (r: Self)
        requires
            cfg.inv(),
            peers.inv(),
            e2e.replay_window <= usize::MAX,
            e2e.epoch_history_keep + 2 <= u32::MAX,
        ensures
            r.inv(),
            r.cfg == cfg,
            r@.pool == (PoolView {
                peers: Map::empty(),
                capacity: cfg.buffer.capacity_per_peer,
                limit: None,
            }),
            r@.pending == (PendingKeys {
                keys: Map::empty(),
                default_ttl_ns: capped(cfg.pending.default_ttl_secs * SECOND),
            }),
            cfg.pending.default_ttl_secs * 1_000_000_000 <= u64::MAX ==> r@.pending.default_ttl_ns
                == cfg.pending.default_ttl_secs * 1_000_000_000,
            r@.buckets == (BucketsView {
                levels: Map::empty(),
                rate: cfg.sae.default_rate_keys_per_sec,
                burst: cfg.sae.default_burst_keys,
            }),
            r@.peers == peers@,
            r@.has_peer_client == has_peer_client,
            r@.gen is None,
            r@.acks is None,
            r@.flow == (FlowView { peers: Map::empty(), endpoints: Map::empty() }),
            r@.admission == (AdmissionView { accepting: true, inflight: 0 }),
            r@.incarnations == (IncarnationsView { seen: Map::empty(), last_wipe: Map::empty() }),
            r@.e2e == (E2eView {
                my_id: cfg.node_id@,
                suite: e2e.suite@,
                rekey_secs: e2e.rekey_secs,
                keep: e2e.epoch_history_keep,
                window: e2e.replay_window,
                peers: Map::empty(),
            }),
    {
        let ttl_ns: u64 = match cfg.pending.default_ttl_secs.checked_mul(SECOND) {
            Some(ns) => ns,
            None => u64::MAX,
        };
        let e2e = E2e::new(cfg.node_id.as_str(), e2e);
        DkmsService {
            pool: BufferPool::new(cfg.buffer.capacity_per_peer),
            pending: PendingStore::new(ttl_ns),
            buckets: SaeBuckets::new(
                cfg.sae.default_rate_keys_per_sec,
                cfg.sae.default_burst_keys,
            ),
            peers,
            has_peer_client,
            generator: None,
            ack_client: None,
            flow: FlowStats::new(),
            admission: Admission::new(),
            peer_incarnations: PeerIncarnations::new(),
            e2e,
            cfg,
        }
    }

    /// Gives the service what makes keys and what acknowledges them.
    pub fn set_control(
        &mut self,
        generator: Option<Generator>,
        ack_client: Option<BatchedAckClient>,
    )
        requires
            old(self).inv(),
            generator matches Some(g) ==> g.inv(),
            ack_client matches Some(a) ==> a.inv(),
        ensures
            final(self).inv(),
            final(self)@ == (ServiceView {
                gen: gen_view(generator),
                acks: acks_view(ack_client),
                ..old(self)@
            }),
    {
        self.generator = generator;
        self.ack_client = ack_client;
    }

    /// Sets how much an application may ask for and hands out a name for the
    /// registration.
    pub fn register_sae(&mut self, args: &RegisterArgs, now_ns: u64) -> (r: Result<
        String,
        CommonError,
    >)
        requires
            old(self).inv(),
        ensures
            final(self).inv(),
            match r {
                Ok(id) => {
                    let (rate, burst) = limits(args.rate_keys_per_sec, args.burst_keys);
                    &&& args.sae_id@.len() > 0
                    &&& random_shaped(id@)
                    &&& args.rate_keys_per_sec >= 1 && args.burst_keys >= args.rate_keys_per_sec ==> {
                        let has = final(self)@.buckets.of(args.sae_id@, now_ns);
                        has.tokens() == args.burst_keys && has.rate == args.rate_keys_per_sec
                    }
                    &&& final(self)@ == (ServiceView {
                        buckets: old(self)@.buckets.with(
                            args.sae_id@,
                            Level::full(rate, burst, now_ns),
                        ),
                        ..old(self)@
                    })
                },
                Err(e) => {
                    &&& args.sae_id@.len() == 0
                    &&& e matches CommonError::InvalidArg(m) && m@ == "sae_id required"@
                    &&& final(self)@ == old(self)@
                },
            },
    {
        let sae_id = SaeId::new(args.sae_id.as_str());
        if chars_of(sae_id.as_str()).len() == 0 {
            return Err(CommonError::invalid_arg("sae_id required"));
        }
        self.buckets.set_limits(&sae_id, args.rate_keys_per_sec, args.burst_keys, now_ns);
        Ok(random_uuid())
    }

    /// Stops taking requests.
    pub fn begin_drain(&mut self) -> (r: u64)
        requires
            old(self).inv(),
        ensures
            final(self).inv(),
            final(self)@ == (ServiceView {
                admission: AdmissionView { accepting: false, ..old(self)@.admission },
                ..old(self)@
            }),
            r == old(self)@.admission.inflight,
    {
        self.admission.close();
        self.admission.inflight()
    }

    /// Drops all keys, at the end of a drain.
    pub fn wipe(&mut self)
        requires
            old(self).inv(),
        ensures
            final(self).inv(),
            final(self)@ == (ServiceView {
                pending: PendingKeys { keys: Map::empty(), ..old(self)@.pending },
                pool: PoolView { peers: Map::empty(), ..old(self)@.pool },
                ..old(self)@
            }),
    {
        self.pending.clear();
        self.pool.clear_all();
    }

    /// How many keys there are to encrypt with and to decrypt with for the node that
    /// an application belongs to: none if that is not known.
    pub fn buffer_state(&self, node: Option<NodeId>) -> (r: (u64, u64))
        requires
            self.inv(),
        ensures
            match node {
                Some(n) => {
                    let keys = self@.pool.of(n@);
                    &&& r.0 == (if keys.enc_len() > usize::MAX {
                        usize::MAX as int
                    } else {
                        keys.enc_len() as int
                    })
                    &&& r.1 == keys.dec.keys.len()
                    &&& keys.qkd.keys.len() + keys.pqc.keys.len() <= usize::MAX ==> r.0
                        == keys.qkd.keys.len() + keys.pqc.keys.len()
                },
                None => r == (0u64, 0u64),
            },
    {
        match node {
            Some(n) => (
                self.pool.enc_len(n.as_str()) as u64,
                self.pool.dec_len(n.as_str()) as u64,
            ),
            None => (0, 0),
        }
    }
}

/// After a drain no application gets a key and no key is left to encrypt or decrypt
/// with.
pub proof fn nothing_is_left_after_a_wipe(
    pending: PendingKeys,
    pool: PoolView,
    id: Seq<char>,
    sae: Seq<char>,
    peer: Seq<char>,
    now_ns: u64,
)
    ensures
        !(PendingKeys { keys: Map::empty(), ..pending }).available(id, sae, now_ns),
        (PoolView { peers: Map::empty(), ..pool }).of(peer).enc_len() == 0,
        (PoolView { peers: Map::empty(), ..pool }).of(peer).dec.keys.len() == 0,
{
}

} // verus!
