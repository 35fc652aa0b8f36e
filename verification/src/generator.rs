//! Fills the buffers of the peers: makes keys, sends them, and counts a key as
//! shared once the peer has acknowledged it.
use crate::ack_pending::{
    all_live, bucket_of, tallied, tally_view, with_bucket, AckPendingEntry, AckPendingStore,
    EntryView, PendingView, TakeOutcome,
};
use crate::buffers::{BufferPool, KeyView, PoolView, TransportKey};
use crate::clock::MILLISECOND;
use crate::config::{copy_opt, opt_text, GeneratorCfg};
use crate::crypto::primitives::{random_bytes, GCM_PLAIN_MAX, GCM_STREAM};
use crate::e2e::{E2e, E2eError};
use crate::flow_stats::{bumped, FlowStats, FlowView, PeerFlow};
use crate::ids::KeyId;
use crate::orr::{
    digest_text, key_digest, HDR_ACK_ENDPOINT, HDR_INCARNATION, HDR_KEY_DIGEST, HDR_KEY_ID,
    HDR_KEY_SIZE_BITS, HDR_MSG_TYPE, HDR_REQUEST_ID, HDR_SAE_ORIGIN, HDR_TIMESTAMP_MS,
    MSG_TYPE_DKMS_BUFFER,
};
use crate::names::{add_names, listed_in_order, name_views};
use crate::peers::{relays, text_views, PeerRegistry};
use crate::security::KeyGrade;
use crate::table::{Headers, Table};
use crate::text::{decimal, decimal_text, join2, text_eq};
use crate::unique::{random_uuid, random_shaped};
use vstd::prelude::*;
use vstd::string::*;

pub mod laws;

verus! {

/// Keeps the keys that were sent and knows which peers have a QKD path.
pub struct Generator {
    my_id: String,
    /// Which run of its process this node is in.
    incarnation: String,
    key_size_bytes: usize,
    ack_timeout_ms: u64,
    capacity: usize,
    ack_endpoint: Option<String>,
    qkd_avail: Table<bool>,
    filled: Table<u64>,
    ack_pending: AckPendingStore,
}

#[verifier::ext_equal]
pub struct GeneratorView {
    pub my_id: Seq<char>,
    pub incarnation: Seq<char>,
    pub key_size_bytes: usize,
    pub ack_timeout_ms: u64,
    /// How many keys a peer should have.
    pub capacity: usize,
    /// Where peers are asked to acknowledge.
    pub ack_endpoint: Option<Seq<char>>,
    /// Which peers have a QKD path, as far as that is known.
    pub qkd: Map<Seq<char>, bool>,
    /// How many keys of each peer have reached its buffer.
    pub filled: Map<Seq<char>, u64>,
    pub pending: PendingView,
}

impl View for Generator {
    type V = GeneratorView;

    closed spec fn view(&self) -> GeneratorView {
        GeneratorView {
            my_id: self.my_id@,
            incarnation: self.incarnation@,
            key_size_bytes: self.key_size_bytes,
            ack_timeout_ms: self.ack_timeout_ms,
            capacity: self.capacity,
            ack_endpoint: opt_text(self.ack_endpoint),
            qkd: self.qkd_avail@,
            filled: self.filled@,
            pending: self.ack_pending@,
        }
    }
}

/// A key on its way to a peer.
pub struct Emission {
    /// The relay that the peer sits behind.
    pub dest_orr: String,
    pub key_id: KeyId,
    pub payload: Vec<u8>,
    pub header: Headers,
    pub grade: KeyGrade,
}

/// The headers of a key that is sent.
pub open spec fn emission_header(
    gen: GeneratorView,
    key_id: Seq<char>,
    bytes: Seq<u8>,
    unix_ms: u64,
) -> Map<Seq<char>, Seq<char>> {
    let m = Map::<Seq<char>, Seq<char>>::empty().insert(
        HDR_MSG_TYPE@,
        MSG_TYPE_DKMS_BUFFER@,
    ).insert(HDR_KEY_ID@, key_id).insert(HDR_SAE_ORIGIN@, gen.my_id).insert(
        HDR_KEY_SIZE_BITS@,
        decimal((gen.key_size_bytes * 8) as nat),
    ).insert(HDR_KEY_DIGEST@, digest_text(key_id, bytes)).insert(
        HDR_TIMESTAMP_MS@,
        decimal(unix_ms as nat),
    ).insert(HDR_REQUEST_ID@, "gen-"@ + key_id).insert(HDR_INCARNATION@, gen.incarnation);
    match gen.ack_endpoint {
        Some(ep) => m.insert(HDR_ACK_ENDPOINT@, ep),
        None => m,
    }
}

/// All that an acknowledgement touches.
#[verifier::ext_equal]
pub struct KeyFlow {
    pub gen: GeneratorView,
    pub pool: PoolView,
    pub flow: FlowView,
}

impl KeyFlow {
    /// The flow once `peer` has acknowledged a key, and whether the key was moved
    /// to the peer's buffer.
    pub open spec fn acknowledged(self, peer: Seq<char>, key_id: Seq<char>) -> (KeyFlow, bool) {
        let f = self.flow.of(peer);
        if !self.gen.pending.dom().contains(peer) {
            (
                KeyFlow {
                    flow: self.flow.with(
                        peer,
                        PeerFlow { ack_miss_unknown_peer: bumped(f.ack_miss_unknown_peer, 1), ..f },
                    ),
                    ..self
                },
                false,
            )
        } else if !self.gen.pending[peer].dom().contains(key_id) {
            (
                KeyFlow {
                    flow: self.flow.with(
                        peer,
                        PeerFlow { ack_miss_unknown_key: bumped(f.ack_miss_unknown_key, 1), ..f },
                    ),
                    ..self
                },
                false,
            )
        } else {
            let entry = self.gen.pending[peer][key_id];
            let pending = with_bucket(
                self.gen.pending,
                peer,
                self.gen.pending[peer].remove(key_id),
            );
            let keys = self.pool.of(peer);
            let buffer = keys.enc(entry.grade);
            if buffer.full() {
                (
                    KeyFlow {
                        gen: GeneratorView { pending, ..self.gen },
                        pool: self.pool.with(peer, keys),
                        flow: self.flow.with(peer, PeerFlow { enc_full: bumped(f.enc_full, 1), ..f }),
                    },
                    false,
                )
            } else {
                (
                    KeyFlow {
                        gen: GeneratorView {
                            pending,
                            filled: self.gen.filled.insert(
                                peer,
                                bumped(self.gen.filled_of(peer), 1),
                            ),
                            ..self.gen
                        },
                        pool: self.pool.with(
                            peer,
                            keys.with_enc(
                                entry.grade,
                                buffer.pushed(KeyView { id: key_id, bytes: entry.bytes }),
                            ),
                        ),
                        flow: self.flow.with(peer, PeerFlow { acked: bumped(f.acked, 1), ..f }),
                    },
                    true,
                )
            }
        }
    }

    /// The flow once `peer` has acknowledged several keys in turn, and how many
    /// of them were moved.
    pub open spec fn acknowledged_all(self, peer: Seq<char>, ids: Seq<Seq<char>>) -> (KeyFlow, nat)
        decreases ids.len(),
    {
        if ids.len() == 0 {
            (self, 0)
        } else {
            let (f, n) = self.acknowledged_all(peer, ids.drop_last());
            let (g, hit) = f.acknowledged(peer, ids.last());
            (
                g,
                if hit {
                    n + 1
                } else {
                    n
                },
            )
        }
    }
}

impl GeneratorView {
    pub open spec fn filled_of(self, peer: Seq<char>) -> u64 {
        if self.filled.dom().contains(peer) {
            self.filled[peer]
        } else {
            0
        }
    }

    /// The grade of keys for a peer: QKD, unless it is known to have no QKD path.
    pub open spec fn grade(self, peer: Seq<char>) -> KeyGrade {
        if self.qkd.dom().contains(peer) && !self.qkd[peer] {
            KeyGrade::Pqc
        } else {
            KeyGrade::Qkd
        }
    }

    pub open spec fn wf(self) -> bool {
        self.key_size_bytes * 8 <= usize::MAX
    }

    /// Whether a peer has fewer keys than it should, those on their way counted.
    pub open spec fn has_room(self, pool: PoolView, peer: Seq<char>) -> bool {
        pool.of(peer).enc_len() + bucket_of(self.pending, peer).dom().len() < self.capacity
    }

    /// With a key on its way to `peer`.
    pub open spec fn sent(
        self,
        peer: Seq<char>,
        key_id: Seq<char>,
        bytes: Seq<u8>,
        now_ns: u64,
    ) -> GeneratorView {
        let deadline_ns = if now_ns + self.ack_timeout_ms * MILLISECOND > u64::MAX {
            u64::MAX
        } else {
            (now_ns + self.ack_timeout_ms * MILLISECOND) as u64
        };
        GeneratorView {
            pending: self.pending.insert(
                peer,
                bucket_of(self.pending, peer).insert(
                    key_id,
                    EntryView { bytes, deadline_ns, grade: self.grade(peer) },
                ),
            ),
            ..self
        }
    }

    /// What is pending after a send: all of it if the key went out, else all but
    /// the key.
    pub open spec fn after_send(self, peer: Seq<char>, key_id: Seq<char>, sent: bool) -> GeneratorView {
        if !sent && bucket_of(self.pending, peer).dom().contains(key_id) {
            GeneratorView {
                pending: with_bucket(self.pending, peer, self.pending[peer].remove(key_id)),
                ..self
            }
        } else {
            self
        }
    }
}

/// The counters once each peer's keys that were given up are counted.
pub open spec fn expiry_counted(flow: FlowView, list: Seq<(Seq<char>, nat)>) -> FlowView
    decreases list.len(),
{
    if list.len() == 0 {
        flow
    } else {
        let v = expiry_counted(flow, list.drop_last());
        let (peer, n) = list.last();
        v.with(peer, PeerFlow { expired: bumped(v.of(peer).expired, n as u64), ..v.of(peer) })
    }
}

/// Which peers have a QKD path, by the last word on each.
pub open spec fn paths(list: Seq<(Seq<char>, bool)>) -> Map<Seq<char>, bool>
    decreases list.len(),
{
    if list.len() == 0 {
        Map::empty()
    } else {
        paths(list.drop_last()).insert(list.last().0, list.last().1)
    }
}

pub open spec fn path_views(list: Seq<(String, bool)>) -> Seq<(Seq<char>, bool)> {
    list.map_values(|e: (String, bool)| (e.0@, e.1))
}

/// What the network controller is told of a peer, besides the demand.
#[derive(Debug)]
pub struct CommodityLevel {
    pub src_dkms: String,
    pub dst_dkms: String,
    pub level: usize,
    pub capacity: usize,
    pub grade: KeyGrade,
}

impl Generator {
    pub closed spec fn inv(self) -> bool {
        &&& self.qkd_avail.inv()
        &&& self.filled.inv()
        &&& self.ack_pending.inv()
        &&& self@.wf()
    }

    /// The endpoint that is announced to peers is the advertised one, else the
    /// address that acknowledgements are listened for on.
    pub fn new(
        node_id: &str,
        incarnation: &str,
        cfg: &GeneratorCfg,
        listen_addr: Option<String>,
        capacity: usize,
    ) -> (r: Self)
        requires
            cfg.key_size_bytes * 8 <= usize::MAX,
        ensures
            r.inv(),
            r@ == (GeneratorView {
                my_id: node_id@,
                incarnation: incarnation@,
                key_size_bytes: cfg.key_size_bytes,
                ack_timeout_ms: cfg.ack_timeout_ms,
                capacity,
                ack_endpoint: match cfg.ack_advertised_endpoint {
                    Some(ep) => Some(ep@),
                    None => opt_text(listen_addr),
                },
                qkd: Map::empty(),
                filled: Map::empty(),
                pending: Map::empty(),
            }),
    {
        let ack_endpoint = match &cfg.ack_advertised_endpoint {
            Some(ep) => Some(ep.as_str().to_owned()),
            None => listen_addr,
        };
        Generator {
            my_id: node_id.to_owned(),
            incarnation: incarnation.to_owned(),
            key_size_bytes: cfg.key_size_bytes,
            ack_timeout_ms: cfg.ack_timeout_ms,
            capacity,
            ack_endpoint,
            qkd_avail: Table::new(),
            filled: Table::new(),
            ack_pending: AckPendingStore::new(),
        }
    }

    /// Whether the peer has a QKD path, if that is known.
    pub fn qkd_available(&self, peer: &str) -> (r: Option<bool>)
        requires
            self.inv(),
        ensures
            r == (if self@.qkd.dom().contains(peer@) {
                Some(self@.qkd[peer@])
            } else {
                None
            }),
    {
        match self.qkd_avail.get(peer) {
            Some(b) => Some(*b),
            None => None,
        }
    }

    /// Takes over which peers have a QKD path; what was known before is dropped.
    pub fn set_paths(&mut self, list: &Vec<(String, bool)>)
        requires
            old(self).inv(),
        ensures
            final(self).inv(),
            final(self)@ == (GeneratorView { qkd: paths(path_views(list@)), ..old(self)@ }),
    {
        let ghost views = path_views(list@);
        let mut t: Table<bool> = Table::new();
        let n: usize = list.len();
        let mut i: usize = 0;
        while i < n
            invariant
                n == list@.len(),
                i <= n,
                views == path_views(list@),
                t.inv(),
                t@ == paths(views.take(i as int)),
            decreases n - i,
        {
            assert(views.take(i + 1).drop_last() =~= views.take(i as int));
            t.insert(list[i].0.as_str(), list[i].1);
            i = i + 1;
        }
        assert(views.take(n as int) =~= views);
        self.qkd_avail = t;
    }

    pub fn grade_for(&self, peer: &str) -> (r: KeyGrade)
        requires
            self.inv(),
        ensures
            r == self@.grade(peer@),
    {
        match self.qkd_available(peer) {
            Some(false) => KeyGrade::Pqc,
            _ => KeyGrade::Qkd,
        }
    }

    /// How many keys of a peer have reached its buffer.
    pub fn filled(&self, peer: &str) -> (r: u64)
        requires
            self.inv(),
        ensures
            r == self@.filled_of(peer@),
    {
        match self.filled.get(peer) {
            Some(n) => *n,
            None => 0,
        }
    }

    /// Where peers are asked to acknowledge.
    pub fn ack_endpoint(&self) -> (r: Option<String>)
        ensures
            opt_text(r) == self@.ack_endpoint,
    {
        copy_opt(&self.ack_endpoint)
    }

    /// A peer acknowledges a key: it moves from the pending ones to the peer's
    /// buffer. Says whether it did.
    pub fn on_ack(
        &mut self,
        pool: &mut BufferPool,
        stats: &mut FlowStats,
        peer: &str,
        key_id: &KeyId,
    ) -> (r: bool)
        requires
            old(self).inv(),
            old(pool).inv(),
            old(stats).inv(),
        ensures
            final(self).inv(),
            final(pool).inv(),
            final(stats).inv(),
            (KeyFlow { gen: final(self)@, pool: final(pool)@, flow: final(stats)@ }, r) == (
            KeyFlow { gen: old(self)@, pool: old(pool)@, flow: old(stats)@ }).acknowledged(
                peer@,
                key_id@,
            ),
    {
        let ghost gen0 = self@;
        let ghost pool0 = pool@;
        let entry = match self.ack_pending.take_diagnosed(peer, key_id) {
            TakeOutcome::Hit(e) => e,
            TakeOutcome::UnknownPeer => {
                stats.ack_miss_unknown_peer(peer, 1);
                assert(self@ =~= gen0);
                return false;
            },
            TakeOutcome::UnknownKey => {
                stats.ack_miss_unknown_key(peer, 1);
                assert(self@ =~= gen0);
                return false;
            },
        };
        let grade = entry.grade;
        let key = TransportKey { id: key_id.copy(), bytes: entry.bytes };
        let pushed = pool.for_peer(peer).enc(grade).try_push(key);
        match pushed {
            Err(rejected) => {
                rejected.discard();
                stats.enc_full(peer, 1);
                assert(pool@ =~= pool0.with(peer@, pool0.of(peer@)));
                return false;
            },
            Ok(_) => {},
        }
        let n: u64 = self.filled(peer);
        self.filled.insert(peer, n.wrapping_add(1));
        stats.acked(peer, 1);
        true
    }

    /// A peer acknowledges several keys in turn. Says how many were moved.
    pub fn on_acks(
        &mut self,
        pool: &mut BufferPool,
        stats: &mut FlowStats,
        peer: &str,
        key_ids: &Vec<KeyId>,
    ) -> (r: usize)
        requires
            old(self).inv(),
            old(pool).inv(),
            old(stats).inv(),
        ensures
            final(self).inv(),
            final(pool).inv(),
            final(stats).inv(),
            (KeyFlow { gen: final(self)@, pool: final(pool)@, flow: final(stats)@ }, r as nat) == (
            KeyFlow { gen: old(self)@, pool: old(pool)@, flow: old(stats)@ }).acknowledged_all(
                peer@,
                key_ids@.map_values(|k: KeyId| k@),
            ),
    {
        let ghost start = KeyFlow { gen: self@, pool: pool@, flow: stats@ };
        let ghost ids = key_ids@.map_values(|k: KeyId| k@);
        let n: usize = key_ids.len();
        let mut moved: usize = 0;
        let mut i: usize = 0;
        while i < n
            invariant
                n == key_ids@.len(),
                ids == key_ids@.map_values(|k: KeyId| k@),
                i <= n,
                moved <= i,
                self.inv(),
                pool.inv(),
                stats.inv(),
                (KeyFlow { gen: self@, pool: pool@, flow: stats@ }, moved as nat)
                    == start.acknowledged_all(peer@, ids.take(i as int)),
            decreases n - i,
        {
            assert(ids.take(i + 1).drop_last() =~= ids.take(i as int));
            assert(ids.take(i + 1).last() == key_ids@[i as int]@);
            if self.on_ack(pool, stats, peer, &key_ids[i]) {
                moved = moved + 1;
            }
            i = i + 1;
        }
        assert(ids.take(n as int) =~= ids);
        moved
    }

    /// Gives up everything that is on its way to a peer and says how much that was.
    pub fn drop_pending(&mut self, peer: &str) -> (r: usize)
        requires
            old(self).inv(),
        ensures
            final(self).inv(),
            final(self)@ == (GeneratorView {
                pending: old(self)@.pending.remove(peer@),
                ..old(self)@
            }),
            r == bucket_of(old(self)@.pending, peer@).dom().len(),
    {
        self.ack_pending.drop_peer(peer)
    }

    /// How many of the keys that the rate allows are sent to a peer now: none
    /// while it has enough of them.
    pub fn emissions_due(&self, pool: &BufferPool, peer: &str, tokens: u32) -> (r: u32)
        requires
            self.inv(),
            pool.inv(),
        ensures
            r == (if self@.has_room(pool@, peer@) {
                tokens
            } else {
                0
            }),
            pool@.of(peer@).qkd.keys.len() + pool@.of(peer@).pqc.keys.len() >= self@.capacity ==> r
                == 0,
            pool@.of(peer@).qkd.keys.len() + pool@.of(peer@).pqc.keys.len() + bucket_of(
                self@.pending,
                peer@,
            ).dom().len() < self@.capacity ==> r == tokens,
    {
        let have: usize = pool.enc_len(peer).saturating_add(self.ack_pending.pending_count(peer));
        if have < self.capacity {
            tokens
        } else {
            0
        }
    }

    /// Makes a key for a peer and notes that it is on its way, before it is: the
    /// acknowledgement may be fast. There is none for a peer without a relay.
    pub fn begin_emit(
        &mut self,
        peers: &PeerRegistry,
        stats: &mut FlowStats,
        peer: &str,
        now_ns: u64,
        unix_ms: u64,
    ) -> (r: Option<Emission>)
        requires
            old(self).inv(),
            peers.inv(),
            old(stats).inv(),
        ensures
            final(self).inv(),
            final(stats).inv(),
            r is Some <==> relays(peers@.peers).dom().contains(peer@),
            match r {
                Some(e) => {
                    &&& random_shaped(e.key_id@)
                    &&& e.payload@.len() == old(self)@.key_size_bytes
                    &&& e.header.inv()
                    &&& e.header@ == emission_header(old(self)@, e.key_id@, e.payload@, unix_ms)
                    &&& e.dest_orr@ == relays(peers@.peers)[peer@]
                    &&& e.grade == old(self)@.grade(peer@)
                    &&& final(self)@ == old(self)@.sent(peer@, e.key_id@, e.payload@, now_ns)
                    &&& final(stats)@ == endpoint_counted(old(self)@, old(stats)@, peer@)
                },
                None => final(self)@ == old(self)@ && final(stats)@ == old(stats)@,
            },
    {
        let orr_map = peers.orr_map();
        let ghost relay_views = text_views(orr_map@);
        if !orr_map.contains(peer) {
            assert(!relay_views.dom().contains(peer@));
            return None;
        }
        let bytes = random_bytes(self.key_size_bytes);
        let key_id = random_uuid();
        self.begin_emit_with(peers, stats, peer, now_ns, unix_ms, key_id.as_str(), bytes)
    }

    /// As [`Generator::begin_emit`], with a key that is given.
    pub fn begin_emit_with(
        &mut self,
        peers: &PeerRegistry,
        stats: &mut FlowStats,
        peer: &str,
        now_ns: u64,
        unix_ms: u64,
        key_id: &str,
        bytes: Vec<u8>,
    ) -> (r: Option<Emission>)
        requires
            old(self).inv(),
            peers.inv(),
            old(stats).inv(),
        ensures
            final(self).inv(),
            final(stats).inv(),
            r is Some <==> relays(peers@.peers).dom().contains(peer@),
            match r {
                Some(e) => {
                    &&& e.key_id@ == key_id@
                    &&& e.payload@ == bytes@
                    &&& e.header.inv()
                    &&& e.header@ == emission_header(old(self)@, key_id@, bytes@, unix_ms)
                    &&& e.dest_orr@ == relays(peers@.peers)[peer@]
                    &&& e.grade == old(self)@.grade(peer@)
                    &&& final(self)@ == old(self)@.sent(peer@, key_id@, bytes@, now_ns)
                    &&& final(stats)@ == endpoint_counted(old(self)@, old(stats)@, peer@)
                },
                None => final(self)@ == old(self)@ && final(stats)@ == old(stats)@,
            },
    {
        let ghost before = self@;
        let orr_map = peers.orr_map();
        let ghost relay_views = text_views(orr_map@);
        let dest_orr = match orr_map.get(peer) {
            Some(d) => d.as_str().to_owned(),
            None => {
                assert(!relay_views.dom().contains(peer@));
                return None;
            },
        };
        assert(relay_views.dom().contains(peer@) && relay_views[peer@] == dest_orr@);
        if self.ack_endpoint.is_none() {
            stats.ack_no_endpoint(peer, 1);
        }
        let grade = self.grade_for(peer);
        let id = KeyId::new(key_id);
        let deadline_ns: u64 = match self.ack_timeout_ms.checked_mul(MILLISECOND) {
            Some(t) => now_ns.saturating_add(t),
            None => u64::MAX,
        };
        let kept = bytes.clone();
        assert(kept@ == bytes@);
        self.ack_pending.insert(peer, &id, AckPendingEntry::new(kept, deadline_ns, grade));
        assert(self@ =~= before.sent(peer@, key_id@, bytes@, now_ns));
        let bits: usize = self.key_size_bytes * 8;
        let mut header = Headers::new();
        header.insert(HDR_MSG_TYPE, MSG_TYPE_DKMS_BUFFER);
        header.insert(HDR_KEY_ID, key_id);
        header.insert(HDR_SAE_ORIGIN, self.my_id.as_str());
        header.insert(HDR_KEY_SIZE_BITS, decimal_text(bits as u64).as_str());
        header.insert(HDR_KEY_DIGEST, key_digest(key_id, bytes.as_slice()).as_str());
        header.insert(HDR_TIMESTAMP_MS, decimal_text(unix_ms).as_str());
        header.insert(HDR_REQUEST_ID, join2("gen-", key_id).as_str());
        header.insert(HDR_INCARNATION, self.incarnation.as_str());
        if let Some(ep) = &self.ack_endpoint {
            header.insert(HDR_ACK_ENDPOINT, ep.as_str());
        }
        assert(header@ == emission_header(before, key_id@, bytes@, unix_ms));
        Some(Emission { dest_orr, key_id: id, payload: bytes, header, grade })
    }

    /// Settles a send: a key that did not go out is not waited for.
    pub fn finish_emit(&mut self, stats: &mut FlowStats, peer: &str, key_id: &KeyId, sent: bool)
        requires
            old(self).inv(),
            old(stats).inv(),
        ensures
            final(self).inv(),
            final(stats).inv(),
            final(self)@ == old(self)@.after_send(peer@, key_id@, sent),
            final(stats)@ == (if sent {
                old(stats)@.with(
                    peer@,
                    PeerFlow {
                        emitted: bumped(old(stats)@.of(peer@).emitted, 1),
                        ..old(stats)@.of(peer@)
                    },
                )
            } else {
                old(stats)@.with(
                    peer@,
                    PeerFlow {
                        emit_failed: bumped(old(stats)@.of(peer@).emit_failed, 1),
                        ..old(stats)@.of(peer@)
                    },
                )
            }),
    {
        let ghost before = self@;
        if sent {
            stats.emitted(peer, 1);
        } else {
            if let Some(e) = self.ack_pending.take(peer, key_id) {
                e.discard();
            }
            assert(self@ =~= before.after_send(peer@, key_id@, sent));
            stats.emit_failed(peer, 1);
        }
    }

    /// Gives up the keys that were not acknowledged in time, counts them, and says
    /// how many there were of each peer.
    pub fn reap(&mut self, stats: &mut FlowStats, now_ns: u64) -> (r: Vec<(String, usize)>)
        requires
            old(self).inv(),
            old(stats).inv(),
        ensures
            final(self).inv(),
            final(stats).inv(),
            final(self)@ == (GeneratorView {
                pending: all_live(old(self)@.pending, now_ns),
                ..old(self)@
            }),
            tallied(old(self)@.pending, now_ns, tally_view(r@)),
            final(stats)@ == expiry_counted(old(stats)@, tally_view(r@)),
    {
        let list = self.ack_pending.reap_expired_by_peer(now_ns);
        let ghost v = tally_view(list@);
        let n: usize = list.len();
        let mut i: usize = 0;
        while i < n
            invariant
                n == list@.len(),
                i <= n,
                v == tally_view(list@),
                stats.inv(),
                stats@ == expiry_counted(old(stats)@, v.take(i as int)),
            decreases n - i,
        {
            assert(v.take(i + 1).drop_last() =~= v.take(i as int));
            assert(v.take(i + 1).last() == v[i as int]);
            stats.expired(list[i].0.as_str(), list[i].1 as u64);
            i = i + 1;
        }
        assert(v.take(n as int) =~= v);
        list
    }
}

/// The counters once a key was made: a key that peers cannot acknowledge is
/// counted.
pub open spec fn endpoint_counted(gen: GeneratorView, flow: FlowView, peer: Seq<char>) -> FlowView {
    if gen.ack_endpoint is None {
        flow.with(
            peer,
            PeerFlow { ack_no_endpoint: bumped(flow.of(peer).ack_no_endpoint, 1), ..flow.of(peer) },
        )
    } else {
        flow
    }
}

/// Seals a key for its peer. A key that could not be sealed is not sent.
pub fn seal_emission(e2e: &mut E2e, peer: &str, emission: &mut Emission) -> (r: Result<(), E2eError>)
    requires
        old(e2e).inv(),
        old(emission).header.inv(),
        old(e2e)@.state_of(peer@).counter < u64::MAX,
        old(emission).payload@.len() <= GCM_STREAM || old(emission).payload@.len() > GCM_PLAIN_MAX,
    ensures
        final(e2e).inv(),
        final(emission).header.inv(),
        final(emission).key_id@ == old(emission).key_id@,
        final(emission).dest_orr@ == old(emission).dest_orr@,
        final(emission).grade == old(emission).grade,
        ({
            let (sealed, e2e_after, header) = old(e2e)@.sealed(
                peer@,
                old(emission).key_id@,
                old(emission).header@,
                old(emission).payload@,
            );
            &&& final(e2e)@ == e2e_after
            &&& final(emission).header@ == header
            &&& match (r, sealed) {
                (Ok(_), Ok(ct)) => final(emission).payload@ == ct,
                (Err(e), Err(v)) => e@ == v && final(emission).payload@ == old(emission).payload@,
                _ => false,
            }
        }),
{
    let key_id = emission.key_id.copy();
    let payload = emission.payload.clone();
    assert(payload@ == emission.payload@);
    match e2e.seal(peer, key_id.as_str(), &mut emission.header, payload.as_slice()) {
        Ok(ct) => {
            emission.payload = ct;
            Ok(())
        },
        Err(e) => Err(e),
    }
}

/// What came of several sends to one peer.
#[derive(Debug)]
pub struct BatchOutcome {
    pub ok: usize,
    pub failed: usize,
    /// What the first one that failed said.
    pub sample_error: Option<String>,
}

/// How many of the sends failed.
pub open spec fn failures(results: Seq<Result<(), String>>) -> nat
    decreases results.len(),
{
    if results.len() == 0 {
        0
    } else {
        failures(results.drop_last()) + if results.last() is Err {
            1nat
        } else {
            0nat
        }
    }
}

/// What the first send that failed said.
pub open spec fn first_failure(results: Seq<Result<(), String>>) -> Option<Seq<char>>
    decreases results.len(),
{
    if results.len() == 0 {
        None
    } else {
        match first_failure(results.drop_last()) {
            Some(t) => Some(t),
            None => match results.last() {
                Ok(_) => None,
                Err(e) => Some(e@),
            },
        }
    }
}

/// Sums up several sends to one peer.
pub fn summarise(results: &Vec<Result<(), String>>) -> (r: BatchOutcome)
    ensures
        r.failed == failures(results@),
        r.ok == results@.len() - failures(results@),
        opt_text(r.sample_error) == first_failure(results@),
{
    let n: usize = results.len();
    let mut failed: usize = 0;
    let mut sample_error: Option<String> = None;
    let mut i: usize = 0;
    while i < n
        invariant
            n == results@.len(),
            i <= n,
            failed <= i,
            failed == failures(results@.take(i as int)),
            opt_text(sample_error) == first_failure(results@.take(i as int)),
        decreases n - i,
    {
        assert(results@.take(i + 1).drop_last() =~= results@.take(i as int));
        match &results[i] {
            Ok(_) => {},
            Err(e) => {
                failed = failed + 1;
                if sample_error.is_none() {
                    sample_error = Some(e.as_str().to_owned());
                }
            },
        }
        i = i + 1;
    }
    assert(results@.take(n as int) =~= results@);
    BatchOutcome { ok: n - failed, failed, sample_error }
}

/// Why a peer's buffer stays empty.
#[derive(Debug, Clone, Copy, PartialEq, Eq, Structural)]
pub enum Cause {
    /// The acknowledgements come under a name that nothing was sent to.
    IdentityMismatch,
    /// The acknowledgements come after the keys were given up.
    LateAcks,
    /// No acknowledgement comes.
    NothingReturns,
}

impl Cause {
    pub open spec fn text_spec(self) -> Seq<char> {
        match self {
            Cause::IdentityMismatch => "sus ACK llegan con un `from` que no casa con el id con el que lo tengo configurado (desajuste de identidad: revisa node_id del peer vs la clave [peers.<id>] de mi node.yml)"@,
            Cause::LateAcks => "sus ACK llegan TARDE: el reaper ya hab\u{ed}a expirado la clave. Sube generator.ack_timeout_ms o baja la rate de emisi\u{f3}n"@,
            Cause::NothingReturns => "emito y nada vuelve: o la clave no llega al peer (mira `recv` en SU log) o su ACK no llega aqu\u{ed} (TCP hacia mi ack_endpoint bloqueado, o le anunci\u{e9} una direcci\u{f3}n no enrutable)"@,
        }
    }

    /// The cause in words.
    pub fn text(self) -> (r: &'static str)
        ensures
            r@ == self.text_spec(),
    {
        match self {
            Cause::IdentityMismatch => "sus ACK llegan con un `from` que no casa con el id con el que lo tengo configurado (desajuste de identidad: revisa node_id del peer vs la clave [peers.<id>] de mi node.yml)",
            Cause::LateAcks => "sus ACK llegan TARDE: el reaper ya hab\u{ed}a expirado la clave. Sube generator.ack_timeout_ms o baja la rate de emisi\u{f3}n",
            Cause::NothingReturns => "emito y nada vuelve: o la clave no llega al peer (mira `recv` en SU log) o su ACK no llega aqu\u{ed} (TCP hacia mi ack_endpoint bloqueado, o le anunci\u{e9} una direcci\u{f3}n no enrutable)",
        }
    }
}

/// What the counters of a peer say of its buffer: nothing while there are keys in
/// it or none were sent.
pub open spec fn diagnosis(f: PeerFlow, enc_len: nat) -> Option<Cause> {
    if enc_len > 0 || f.emitted == 0 {
        None
    } else if f.ack_miss_unknown_peer > 0 {
        Some(Cause::IdentityMismatch)
    } else if f.ack_miss_unknown_key > 0 && f.acked == 0 {
        Some(Cause::LateAcks)
    } else if f.acked == 0 && f.expired > 0 {
        Some(Cause::NothingReturns)
    } else {
        None
    }
}

pub fn diagnose(f: &PeerFlow, enc_len: usize) -> (r: Option<Cause>)
    ensures
        r == diagnosis(*f, enc_len as nat),
{
    if enc_len > 0 || f.emitted == 0 {
        return None;
    }
    if f.ack_miss_unknown_peer > 0 {
        Some(Cause::IdentityMismatch)
    } else if f.ack_miss_unknown_key > 0 && f.acked == 0 {
        Some(Cause::LateAcks)
    } else if f.acked == 0 && f.expired > 0 {
        Some(Cause::NothingReturns)
    } else {
        None
    }
}

/// The wait after a failure: twice the last one, up to `cap_ms`.
pub fn next_backoff(backoff_ms: u64, cap_ms: u64) -> (r: u64)
    ensures
        r == (if 2 * backoff_ms < cap_ms {
            2 * backoff_ms
        } else {
            cap_ms as int
        }),
        r <= cap_ms,
        backoff_ms <= cap_ms ==> r >= backoff_ms,
{
    let doubled: u64 = backoff_ms.saturating_add(backoff_ms);
    if doubled < cap_ms {
        doubled
    } else {
        cap_ms
    }
}

/// Waits between attempts to hand in the demand, before they are spread.
pub const DEMAND_BACKOFF_MS: [u64; 2] = [40, 120];

/// Attempts to hand in the demand.
pub const DEMAND_ATTEMPTS: u32 = 3;

/// The wait after the attempt of this number failed, if there is another: the base
/// a quarter up or down, as `random` has it.
pub fn demand_wait_ms(attempt: u32, random: u64) -> (r: Option<u64>)
    requires
        attempt >= 1,
    ensures
        match r {
            Some(w) => {
                let base = DEMAND_BACKOFF_MS@[attempt - 1];
                &&& attempt < DEMAND_ATTEMPTS
                &&& w == base + random % ((base / 2 + 1) as u64) - base / 4
                &&& base - base / 4 <= w <= base + base / 4
            },
            None => attempt >= DEMAND_ATTEMPTS,
        },
{
    if attempt >= DEMAND_ATTEMPTS {
        return None;
    }
    let base: u64 = DEMAND_BACKOFF_MS[(attempt - 1) as usize];
    assert(base == 40 || base == 120);
    let spread: u64 = random % (base / 2 + 1);
    Some(base + spread - base / 4)
}

/// How often the demand is handed in.
pub fn demand_period_ms(demand_refresh_ms: u64) -> (r: u64)
    ensures
        r == (if demand_refresh_ms < 50 {
            50
        } else {
            demand_refresh_ms
        }),
{
    if demand_refresh_ms < 50 {
        50
    } else {
        demand_refresh_ms
    }
}

/// The peers of which anything is known: those with buffers, those that keys are
/// sent to, and those with counters, which may only send.
pub fn known_peers(pool: &BufferPool, peers: &PeerRegistry, stats: &FlowStats) -> (r: Vec<String>)
    requires
        pool.inv(),
        peers.inv(),
        stats.inv(),
    ensures
        listed_in_order(
            name_views(r@),
            pool@.peers.dom().union(relays(peers@.peers).dom()).union(stats@.peers.dom()),
        ),
{
    let mut list: Vec<String> = Vec::new();
    let orr_map = peers.orr_map();
    let ghost relay_views = text_views(orr_map@);
    proof {
        orr_map.lemma_keys();
        assert(relay_views.dom() =~= orr_map@.dom());
        assert(name_views(list@).to_set() =~= Set::<Seq<char>>::empty());
    }
    add_names(&mut list, &pool.peer_ids());
    add_names(&mut list, &orr_map.key_list());
    add_names(&mut list, &stats.peer_ids());
    assert(Set::<Seq<char>>::empty().union(pool@.peers.dom()) =~= pool@.peers.dom());
    list
}

/// Where the keys of one peer stand.
#[derive(Debug)]
pub struct PeerReport {
    pub enc: usize,
    pub dec: usize,
    pub ack_pending: usize,
    pub emit_total: u64,
    pub flow: PeerFlow,
    /// Where the peer wants to be acknowledged, if it has said so.
    pub peer_ack_endpoint: Option<String>,
    pub cause: Option<Cause>,
}

impl Generator {
    pub fn report(&self, pool: &BufferPool, stats: &FlowStats, peer: &str) -> (r: PeerReport)
        requires
            self.inv(),
            pool.inv(),
            stats.inv(),
        ensures
            r.enc == (if pool@.of(peer@).enc_len() > usize::MAX {
                usize::MAX as int
            } else {
                pool@.of(peer@).enc_len() as int
            }),
            pool@.of(peer@).qkd.keys.len() + pool@.of(peer@).pqc.keys.len() <= usize::MAX ==> r.enc
                == pool@.of(peer@).qkd.keys.len() + pool@.of(peer@).pqc.keys.len(),
            r.dec == pool@.of(peer@).dec.keys.len(),
            r.ack_pending == bucket_of(self@.pending, peer@).dom().len(),
            r.emit_total == self@.filled_of(peer@),
            r.flow == stats@.of(peer@),
            opt_text(r.peer_ack_endpoint) == (if stats@.endpoints.dom().contains(peer@) {
                Some(stats@.endpoints[peer@])
            } else {
                None
            }),
            r.cause == diagnosis(stats@.of(peer@), pool@.of(peer@).enc_len()),
    {
        let flow = stats.peer(peer);
        let enc: usize = pool.enc_len(peer);
        PeerReport {
            enc,
            dec: pool.dec_len(peer),
            ack_pending: self.ack_pending.pending_count(peer),
            emit_total: self.filled(peer),
            flow,
            peer_ack_endpoint: stats.endpoint_of(peer),
            cause: diagnose(&flow, enc),
        }
    }

    /// What the network controller is told: how full the buffer of each peer is
    /// that keys are sent to, but this node itself.
    pub fn build_demand_report(&self, pool: &BufferPool, peers: &PeerRegistry) -> (r: Vec<
        CommodityLevel,
    >)
        requires
            self.inv(),
            pool.inv(),
            peers.inv(),
        ensures
            ({
                let dsts = r@.map_values(|c: CommodityLevel| c.dst_dkms@);
                &&& dsts.no_duplicates()
                &&& dsts.to_set() == relays(peers@.peers).dom().remove(self@.my_id)
            }),
            forall|i: int|
                0 <= i < r@.len() ==> level_of(#[trigger] r@[i], self@, pool@),
    {
        let orr_map = peers.orr_map();
        let ghost relay_views = text_views(orr_map@);
        let keys = orr_map.key_list();
        let ghost texts = name_views(keys@);
        proof {
            orr_map.lemma_keys();
            assert(relay_views.dom() =~= orr_map@.dom());
        }
        let mut out: Vec<CommodityLevel> = Vec::new();
        let n: usize = keys.len();
        let mut i: usize = 0;
        let ghost mut dsts: Seq<Seq<char>> = Seq::empty();
        assert(out@.map_values(|c: CommodityLevel| c.dst_dkms@) =~= dsts);
        while i < n
            invariant
                self.inv(),
                pool.inv(),
                n == keys@.len(),
                i <= n,
                texts == name_views(keys@),
                texts.no_duplicates(),
                dsts == out@.map_values(|c: CommodityLevel| c.dst_dkms@),
                dsts.no_duplicates(),
                forall|k: Seq<char>| #[trigger]
                    dsts.contains(k) <==> texts.take(i as int).contains(k) && k != self@.my_id,
                forall|j: int| 0 <= j < out@.len() ==> level_of(#[trigger] out@[j], self@, pool@),
            decreases n - i,
        {
            let peer = keys[i].as_str();
            let ghost kt = texts[i as int];
            let ghost prior = texts.take(i as int);
            let ghost dsts0 = dsts;
            proof {
                assert(kt == keys@[i as int]@);
                assert(texts.take(i + 1) =~= prior.push(kt));
                if prior.contains(kt) {
                    let j = choose|j: int| 0 <= j < i && prior[j] == kt;
                    assert(texts[j] == texts[i as int]);
                }
                assert forall|k: Seq<char>| #[trigger] texts.take(i + 1).contains(k) <==> prior.contains(
                    k,
                ) || k == kt by {
                    if prior.contains(k) {
                        let j = choose|j: int| 0 <= j < i && prior[j] == k;
                        assert(texts.take(i + 1)[j] == k);
                    }
                    if k == kt {
                        assert(texts.take(i + 1)[i as int] == k);
                    }
                }
            }
            if !text_eq(peer, self.my_id.as_str()) {
                out.push(
                    CommodityLevel {
                        src_dkms: self.my_id.as_str().to_owned(),
                        dst_dkms: peer.to_owned(),
                        level: pool.enc_len(peer),
                        capacity: self.capacity,
                        grade: self.grade_for(peer),
                    },
                );
                proof {
                    dsts = dsts0.push(kt);
                    assert(out@.map_values(|c: CommodityLevel| c.dst_dkms@) =~= dsts);
                    assert(!dsts0.contains(kt));
                    assert forall|k: Seq<char>| #[trigger] dsts.contains(k) <==> dsts0.contains(k)
                        || k == kt by {
                        if dsts0.contains(k) {
                            let j = choose|j: int| 0 <= j < dsts0.len() && dsts0[j] == k;
                            assert(dsts[j] == k);
                        }
                        if k == kt {
                            assert(dsts[dsts0.len() as int] == k);
                        }
                    }
                }
            }
            i = i + 1;
        }
        proof {
            assert(texts.take(n as int) =~= texts);
            assert forall|k: Seq<char>| #[trigger] dsts.to_set().contains(k) == relay_views.dom().remove(
                self@.my_id,
            ).contains(k) by {
                assert(dsts.contains(k) == dsts.to_set().contains(k));
                assert(texts.contains(k) == texts.to_set().contains(k));
            }
            assert(dsts.to_set() =~= relay_views.dom().remove(self@.my_id));
        }
        out
    }
}

/// Whether an entry says how full the buffer of its peer is.
pub open spec fn level_of(c: CommodityLevel, gen: GeneratorView, pool: PoolView) -> bool {
    let len = pool.of(c.dst_dkms@).enc_len();
    &&& c.src_dkms@ == gen.my_id
    &&& c.level == (if len > usize::MAX {
        usize::MAX as int
    } else {
        len as int
    })
    &&& c.capacity == gen.capacity
    &&& c.grade == gen.grade(c.dst_dkms@)
}

/// A key that was sent and is acknowledged in time is shared: it stands in the
/// buffer of its peer, behind the others, with the bytes and the grade that it was
/// sent with.
pub proof fn acknowledged_key_is_shared(
    f: KeyFlow,
    peer: Seq<char>,
    key_id: Seq<char>,
    bytes: Seq<u8>,
    now_ns: u64,
)
    requires
        !f.pool.of(peer).enc(f.gen.grade(peer)).full(),
    ensures
        ({
            let grade = f.gen.grade(peer);
            let sent = KeyFlow { gen: f.gen.sent(peer, key_id, bytes, now_ns), ..f };
            let (after, moved) = sent.acknowledged(peer, key_id);
            &&& moved
            &&& after.pool.of(peer).enc(grade).keys == f.pool.of(peer).enc(grade).keys.push(
                KeyView { id: key_id, bytes },
            )
            &&& after.pool.of(peer).dec == f.pool.of(peer).dec
            &&& !bucket_of(after.gen.pending, peer).dom().contains(key_id)
        }),
{
}

/// A key is acknowledged once: the second time changes nothing but a counter.
pub proof fn second_acknowledgement_moves_nothing(f: KeyFlow, peer: Seq<char>, key_id: Seq<char>)
    ensures
        ({
            let (after, _) = f.acknowledged(peer, key_id);
            let (again, moved) = after.acknowledged(peer, key_id);
            &&& !moved
            &&& again.gen == after.gen
            &&& again.pool == after.pool
        }),
{
}

/// What was not sent is not acknowledged: no key reaches a buffer.
pub proof fn only_keys_that_were_sent_are_shared(f: KeyFlow, peer: Seq<char>, key_id: Seq<char>)
    requires
        !bucket_of(f.gen.pending, peer).dom().contains(key_id),
    ensures
        ({
            let (after, moved) = f.acknowledged(peer, key_id);
            &&& !moved
            &&& after.pool == f.pool
            &&& after.gen == f.gen
        }),
{
}

/// An acknowledgement of one peer leaves the buffers and the pending keys of the
/// others alone.
pub proof fn peers_are_acknowledged_apart(
    f: KeyFlow,
    peer: Seq<char>,
    key_id: Seq<char>,
    other: Seq<char>,
)
    requires
        other != peer,
    ensures
        ({
            let (after, _) = f.acknowledged(peer, key_id);
            &&& after.pool.of(other) == f.pool.of(other)
            &&& bucket_of(after.gen.pending, other) == bucket_of(f.gen.pending, other)
            &&& after.flow.of(other) == f.flow.of(other)
        }),
{
}

/// A send that failed leaves what is pending as it was.
pub proof fn failed_send_is_forgotten(
    gen: GeneratorView,
    peer: Seq<char>,
    key_id: Seq<char>,
    bytes: Seq<u8>,
    now_ns: u64,
)
    requires
        !bucket_of(gen.pending, peer).dom().contains(key_id),
        forall|p: Seq<char>| #[trigger]
            gen.pending.dom().contains(p) ==> gen.pending[p].dom() != Set::<Seq<char>>::empty(),
    ensures
        gen.sent(peer, key_id, bytes, now_ns).after_send(peer, key_id, false) == gen,
{
    let sent = gen.sent(peer, key_id, bytes, now_ns);
    let b = bucket_of(gen.pending, peer);
    assert(sent.pending[peer].remove(key_id) =~= b);
    let after = sent.after_send(peer, key_id, false);
    assert(after.pending =~= gen.pending);
}

/// A key that was given up cannot be acknowledged any more.
pub proof fn reaped_key_is_not_shared(f: KeyFlow, peer: Seq<char>, key_id: Seq<char>, now_ns: u64)
    requires
        bucket_of(f.gen.pending, peer).dom().contains(key_id),
        f.gen.pending[peer][key_id].expired(now_ns),
    ensures
        ({
            let reaped = KeyFlow {
                gen: GeneratorView { pending: all_live(f.gen.pending, now_ns), ..f.gen },
                ..f
            };
            let (after, moved) = reaped.acknowledged(peer, key_id);
            !moved && after.pool == f.pool
        }),
{
}

} // verus!
