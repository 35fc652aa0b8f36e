//! Configuration of a node, as far as its decisions read it.
use crate::crypto::frame_mac::DEFAULT_WINDOW;
use crate::crypto::pqc::suite;
use crate::security::SecurityLevel;
use crate::table::Table;
use crate::text::{join2, text_eq};
use vstd::prelude::*;
use vstd::string::*;

verus! {

/// A text that is not to be shown.
#[derive(Clone, PartialEq, Eq)]
pub struct SecretString(String);

impl View for SecretString {
    type V = Seq<char>;

    closed spec fn view(&self) -> Seq<char> {
        self.0@
    }
}

impl SecretString {
    pub fn new(s: &str) -> (r: Self)
        ensures
            r@ == s@,
    {
        SecretString(s.to_owned())
    }

    pub fn expose(&self) -> (r: &str)
        ensures
            r@ == self@,
    {
        self.0.as_str()
    }

    /// What stands for the text in a log.
    pub fn redacted(&self) -> (r: &'static str)
        ensures
            r@ == "<redacted>"@,
    {
        "<redacted>"
    }
}

/// Why a configuration could not be loaded.
#[derive(Debug)]
pub enum ConfigError {
    Build(String),
    /// The directory that is missing, in quotes.
    DirMissing(String),
}

impl ConfigError {
    pub open spec fn text_spec(self) -> Seq<char> {
        match self {
            ConfigError::Build(m) => "config build failed: "@ + m@,
            ConfigError::DirMissing(m) => "config dir not found at "@ + m@,
        }
    }

    /// The failure in words.
    pub fn text(&self) -> (r: String)
        ensures
            r@ == self.text_spec(),
    {
        match self {
            ConfigError::Build(m) => join2("config build failed: ", m.as_str()),
            ConfigError::DirMissing(m) => join2("config dir not found at ", m.as_str()),
        }
    }
}

/// How a peer is reached for refilling buffers.
#[derive(Debug, Clone, Copy, PartialEq, Eq, Structural)]
pub enum PeerTransport {
    Http,
    Orr,
}

impl Default for PeerTransport {
    fn default() -> (r: Self)
        ensures
            r == PeerTransport::Http,
    {
        PeerTransport::Http
    }
}

/// What is known of a peer.
#[derive(Debug, PartialEq, Eq)]
pub struct PeerCfg {
    pub endpoint: String,
    pub sni: Option<String>,
    pub orr_id: Option<String>,
    pub transport: PeerTransport,
    pub max_hops: Option<i32>,
    pub orr_path: Option<String>,
    pub security_level: Option<SecurityLevel>,
}

#[verifier::ext_equal]
pub struct PeerCfgView {
    pub endpoint: Seq<char>,
    pub sni: Option<Seq<char>>,
    pub orr_id: Option<Seq<char>>,
    pub transport: PeerTransport,
    pub max_hops: Option<i32>,
    pub orr_path: Option<Seq<char>>,
    pub security_level: Option<SecurityLevel>,
}

pub open spec fn opt_text(o: Option<String>) -> Option<Seq<char>> {
    match o {
        Some(s) => Some(s@),
        None => None,
    }
}

pub fn copy_opt(o: &Option<String>) -> (r: Option<String>)
    ensures
        opt_text(r) == opt_text(*o),
{
    match o {
        Some(s) => Some(s.clone()),
        None => None,
    }
}

fn same_opt(a: &Option<String>, b: &Option<String>) -> (r: bool)
    ensures
        r == (opt_text(*a) == opt_text(*b)),
{
    match (a, b) {
        (Some(x), Some(y)) => text_eq(x.as_str(), y.as_str()),
        (None, None) => true,
        _ => false,
    }
}

impl View for PeerCfg {
    type V = PeerCfgView;

    open spec fn view(&self) -> PeerCfgView {
        PeerCfgView {
            endpoint: self.endpoint@,
            sni: opt_text(self.sni),
            orr_id: opt_text(self.orr_id),
            transport: self.transport,
            max_hops: self.max_hops,
            orr_path: opt_text(self.orr_path),
            security_level: self.security_level,
        }
    }
}

impl PeerCfg {
    pub fn copy(&self) -> (r: Self)
        ensures
            r@ == self@,
    {
        PeerCfg {
            endpoint: self.endpoint.clone(),
            sni: copy_opt(&self.sni),
            orr_id: copy_opt(&self.orr_id),
            transport: self.transport,
            max_hops: self.max_hops,
            orr_path: copy_opt(&self.orr_path),
            security_level: self.security_level,
        }
    }

    pub fn same(&self, other: &Self) -> (r: bool)
        ensures
            r == (self@ == other@),
    {
        let hops: bool = match (self.max_hops, other.max_hops) {
            (Some(a), Some(b)) => a == b,
            (None, None) => true,
            _ => false,
        };
        let level: bool = match (self.security_level, other.security_level) {
            (Some(a), Some(b)) => a == b,
            (None, None) => true,
            _ => false,
        };
        let r: bool = text_eq(self.endpoint.as_str(), other.endpoint.as_str()) && same_opt(
            &self.sni,
            &other.sni,
        ) && same_opt(&self.orr_id, &other.orr_id) && self.transport == other.transport && hops
            && same_opt(&self.orr_path, &other.orr_path) && level;
        proof {
            if r {
                assert(self@ =~= other@);
            }
        }
        r
    }
}

/// Paths of the TLS material.
#[derive(Debug)]
pub struct TlsCfg {
    pub cert_path: String,
    pub key_path: String,
    pub sae_client_ca: String,
    pub peer_dkms_ca: String,
    pub control_plane_ca: Option<String>,
}

impl TlsCfg {
    /// The authority that control-plane servers are verified with: the one set
    /// for them, else that of the peers.
    pub fn control_ca(&self) -> (r: &str)
        ensures
            r@ == (match self.control_plane_ca {
                Some(p) => p@,
                None => self.peer_dkms_ca@,
            }),
    {
        match &self.control_plane_ca {
            Some(p) => p.as_str(),
            None => self.peer_dkms_ca.as_str(),
        }
    }
}

/// Neighbours of the node.
#[derive(Debug)]
pub struct SouthboundCfg {
    pub sdn_endpoint: String,
    pub qkc_endpoint: Option<String>,
    pub sdn_http_url: Option<String>,
    pub orr_id: Option<String>,
    pub orr_endpoint: Option<String>,
    pub orr_tls: bool,
    pub connect_timeout_ms: u64,
    pub rpc_timeout_ms: u64,
    pub default_max_hops: i32,
}

/// End-to-end protection of transport material.
#[derive(Debug)]
pub struct TransportE2eCfg {
    pub suite: String,
    pub rekey_secs: u64,
    pub epoch_history_keep: usize,
    pub replay_window: u64,
}

impl Default for TransportE2eCfg {
    fn default() -> (r: Self)
        ensures
            r.suite@ == "ml-kem-768"@,
            r.rekey_secs == 3600,
            r.epoch_history_keep == 4,
            r.replay_window == DEFAULT_WINDOW,
    {
        TransportE2eCfg {
            suite: suite::ML_KEM_768.to_owned(),
            rekey_secs: 3600,
            epoch_history_keep: 4,
            replay_window: DEFAULT_WINDOW,
        }
    }
}

#[derive(Debug, Clone, Copy, PartialEq, Eq, Structural)]
pub struct BufferCfg {
    pub capacity_per_peer: usize,
    pub refill_low_watermark: usize,
    pub refill_batch: u32,
}

impl Default for BufferCfg {
    fn default() -> (r: Self)
        ensures
            r == (BufferCfg {
                capacity_per_peer: 4096,
                refill_low_watermark: 1024,
                refill_batch: 256,
            }),
    {
        BufferCfg { capacity_per_peer: 4096, refill_low_watermark: 1024, refill_batch: 256 }
    }
}

#[derive(Debug, Clone, Copy, PartialEq, Eq, Structural)]
pub struct PendingCfg {
    pub default_ttl_secs: u64,
    pub sweep_interval_secs: u64,
}

impl Default for PendingCfg {
    fn default() -> (r: Self)
        ensures
            r == (PendingCfg { default_ttl_secs: 86_400, sweep_interval_secs: 30 }),
    {
        PendingCfg { default_ttl_secs: 86_400, sweep_interval_secs: 30 }
    }
}

#[derive(Debug, Clone, Copy, PartialEq, Eq, Structural)]
pub struct SaeCfg {
    pub default_rate_keys_per_sec: u64,
    pub default_burst_keys: u64,
    pub token_unit_bytes: u32,
    pub enforce_authorization: bool,
}

impl Default for SaeCfg {
    fn default() -> (r: Self)
        ensures
            r == (SaeCfg {
                default_rate_keys_per_sec: 100,
                default_burst_keys: 400,
                token_unit_bytes: 32,
                enforce_authorization: true,
            }),
    {
        SaeCfg {
            default_rate_keys_per_sec: 100,
            default_burst_keys: 400,
            token_unit_bytes: 32,
            enforce_authorization: true,
        }
    }
}

#[derive(Debug, Clone, Copy, PartialEq, Eq, Structural)]
pub struct SaeBindingCfg {
    pub ttl_secs: u64,
    pub max_entries: u64,
}

impl Default for SaeBindingCfg {
    fn default() -> (r: Self)
        ensures
            r == (SaeBindingCfg { ttl_secs: 60, max_entries: 16_384 }),
    {
        SaeBindingCfg { ttl_secs: 60, max_entries: 16_384 }
    }
}

#[derive(Debug, Clone, Copy, PartialEq, Eq, Structural)]
pub struct RequestCfg {
    pub peer_send_timeout_ms: u64,
    pub ack_wait_timeout_ms: u64,
    pub max_concurrent_peers: usize,
}

impl Default for RequestCfg {
    fn default() -> (r: Self)
        ensures
            r == (RequestCfg {
                peer_send_timeout_ms: 1_500,
                ack_wait_timeout_ms: 2_500,
                max_concurrent_peers: 32,
            }),
    {
        RequestCfg {
            peer_send_timeout_ms: 1_500,
            ack_wait_timeout_ms: 2_500,
            max_concurrent_peers: 32,
        }
    }
}

impl RequestCfg {
    /// Time that a request to a peer may take as a whole.
    pub fn total_timeout_ms(&self) -> (r: u64)
        ensures
            r == (if self.peer_send_timeout_ms + self.ack_wait_timeout_ms > u64::MAX {
                u64::MAX as int
            } else {
                self.peer_send_timeout_ms + self.ack_wait_timeout_ms
            }),
    {
        self.peer_send_timeout_ms.saturating_add(self.ack_wait_timeout_ms)
    }
}

/// The loops that fill the buffers.
#[derive(Debug)]
pub struct GeneratorCfg {
    pub enabled: bool,
    pub key_size_bytes: usize,
    pub tick_ms: u64,
    pub rate_refresh_ms: u64,
    pub demand_refresh_ms: u64,
    pub ack_timeout_ms: u64,
    pub ack_reaper_ms: u64,
    pub ack_transport: String,
    pub ack_advertised_endpoint: Option<String>,
    pub max_tokens_per_peer_per_tick: u32,
    pub max_emits_in_flight: usize,
}

impl Default for GeneratorCfg {
    fn default() -> (r: Self)
        ensures
            r.enabled,
            r.key_size_bytes == 32,
            r.tick_ms == 100,
            r.rate_refresh_ms == 1_000,
            r.demand_refresh_ms == 1_000,
            r.ack_timeout_ms == 30_000,
            r.ack_reaper_ms == 1_000,
            r.ack_transport@ == "socket"@,
            r.ack_advertised_endpoint is None,
            r.max_tokens_per_peer_per_tick == 32,
            r.max_emits_in_flight == 128,
    {
        GeneratorCfg {
            enabled: true,
            key_size_bytes: 32,
            tick_ms: 100,
            rate_refresh_ms: 1_000,
            demand_refresh_ms: 1_000,
            ack_timeout_ms: 30_000,
            ack_reaper_ms: 1_000,
            ack_transport: "socket".to_owned(),
            ack_advertised_endpoint: None,
            max_tokens_per_peer_per_tick: 32,
            max_emits_in_flight: 128,
        }
    }
}

/// Configuration of a node.
pub struct DkmsConfig {
    pub node_id: String,
    pub peers: Table<PeerCfg>,
    pub buffer: BufferCfg,
    pub pending: PendingCfg,
    pub sae: SaeCfg,
    /// Which node each application entity belongs to.
    pub sae_bindings: Table<String>,
    pub request: RequestCfg,
    pub default_security_level: SecurityLevel,
}

impl DkmsConfig {
    pub open spec fn inv(self) -> bool {
        self.peers.inv() && self.sae_bindings.inv()
    }

    /// The level that a peer's keys are served with, unless a request says otherwise.
    pub open spec fn level_for(self, peer: Seq<char>) -> SecurityLevel {
        if self.peers@.dom().contains(peer) && self.peers@[peer].security_level is Some {
            self.peers@[peer].security_level->0
        } else {
            self.default_security_level
        }
    }

    pub fn security_level_for(&self, peer: &str) -> (r: SecurityLevel)
        requires
            self.inv(),
        ensures
            r == self.level_for(peer@),
    {
        match self.peers.get(peer) {
            Some(p) => match p.security_level {
                Some(l) => l,
                None => self.default_security_level,
            },
            None => self.default_security_level,
        }
    }
}

/// A peer's own level goes before the default one, which serves every other peer.
pub proof fn own_level_goes_before_the_default(cfg: DkmsConfig, peer: Seq<char>, level: SecurityLevel)
    ensures
        cfg.peers@.dom().contains(peer) && cfg.peers@[peer].security_level == Some(level)
            ==> cfg.level_for(peer) == level,
        cfg.peers@.dom().contains(peer) && cfg.peers@[peer].security_level is None
            ==> cfg.level_for(peer) == cfg.default_security_level,
        !cfg.peers@.dom().contains(peer) ==> cfg.level_for(peer) == cfg.default_security_level,
{
}

} // verus!
