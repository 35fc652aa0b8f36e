//! Acknowledgements: what is done with those that come in, and how those that go
//! out are gathered and sent.
use crate::buffers::BufferPool;
use crate::config::PeerCfg;
use crate::flow_stats::{bumped, FlowStats, FlowView, PeerFlow};
use crate::generator::{Generator, KeyFlow};
use crate::ids::KeyId;
use crate::names::name_views;
use crate::peers::{PeerRegistry, RegistryView};
use crate::table::Table;
use crate::text::{chars_of, text_range, trim, trimmed};
use vstd::prelude::*;
use vstd::string::*;
use vstd::utf8::*;

verus! {

/// A batch of acknowledgements as it travels.
#[derive(Debug, Clone, PartialEq, Eq)]
pub struct AckFrame {
    /// Who acknowledges.
    pub from: String,
    pub key_ids: Vec<String>,
}

/// Longest line that is read, in bytes.
pub const MAX_ACK_LINE: u64 = 65536;

/// Longest name of a sender, in bytes.
pub const MAX_ACK_FROM: usize = 128;

/// Connections that are served at a time.
pub const MAX_ACK_CONNS: usize = 128;

/// How long a connection may be silent.
pub const ACK_IDLE_TIMEOUT_MS: u64 = 30000;

/// How long connecting may take, and how long writing.
pub const ACK_SEND_TIMEOUT_MS: u64 = 2000;

/// Whether acknowledgements of `from` are looked at: only those of known peers, so
/// that made-up names leave no trace.
pub fn ack_from_is_processable(from: &str, is_known_peer: bool) -> (r: bool)
    ensures
        r == (encode_utf8(from@).len() <= MAX_ACK_FROM && is_known_peer),
{
    let n: usize = from.as_bytes().len();
    n <= MAX_ACK_FROM && is_known_peer
}

/// What a read of one line gave.
#[derive(Debug)]
pub enum LineRead {
    /// The sender has nothing more to say.
    End,
    /// The line did not end where it had to.
    TooLong,
    /// A line without white space at its ends, which may be empty.
    Line(String),
}

/// Looks at what was read of a line, up to and with its line feed or up to the
/// bound on its length.
pub fn classify_line(read: &str) -> (r: LineRead)
    ensures
        match r {
            LineRead::End => read@.len() == 0,
            LineRead::TooLong => read@.len() > 0 && read@.last() != '\n',
            LineRead::Line(t) => read@.len() > 0 && read@.last() == '\n' && t@ == trim(read@),
        },
{
    let v = chars_of(read);
    let n: usize = v.len();
    if n == 0 {
        LineRead::End
    } else if v[n - 1] != '\n' {
        LineRead::TooLong
    } else {
        LineRead::Line(trimmed(read))
    }
}

/// As much of a line as is shown of it: 200 characters.
pub fn shown(line: &str) -> (r: String)
    ensures
        r@ == (if line@.len() <= 200 {
            line@
        } else {
            line@.take(200)
        }),
{
    let v = chars_of(line);
    let n: usize = if v.len() <= 200 { v.len() } else { 200 };
    let r = text_range(&v, 0, n);
    assert(r@ =~= line@.take(n as int));
    assert(line@.take(line@.len() as int) =~= line@);
    r
}

/// Takes a batch of acknowledgements. Says how many keys it moved to the sender's
/// buffer and how many it did not, or nothing if the sender is not listened to.
pub fn take_frame(
    generator: &mut Generator,
    pool: &mut BufferPool,
    stats: &mut FlowStats,
    frame: &AckFrame,
    is_known_peer: bool,
) -> (r: Option<(usize, usize)>)
    requires
        old(generator).inv(),
        old(pool).inv(),
        old(stats).inv(),
    ensures
        final(generator).inv(),
        final(pool).inv(),
        final(stats).inv(),
        ({
            let before = KeyFlow { gen: old(generator)@, pool: old(pool)@, flow: old(stats)@ };
            let after = KeyFlow { gen: final(generator)@, pool: final(pool)@, flow: final(stats)@ };
            match r {
                None => {
                    &&& encode_utf8(frame.from@).len() > MAX_ACK_FROM || !is_known_peer
                    &&& after == before
                },
                Some((ok, miss)) => {
                    &&& encode_utf8(frame.from@).len() <= MAX_ACK_FROM && is_known_peer
                    &&& (after, ok as nat) == before.acknowledged_all(
                        frame.from@,
                        name_views(frame.key_ids@),
                    )
                    &&& ok + miss == frame.key_ids@.len()
                },
            }
        }),
{
    if !ack_from_is_processable(frame.from.as_str(), is_known_peer) {
        return None;
    }
    let n: usize = frame.key_ids.len();
    let mut ids: Vec<KeyId> = Vec::new();
    let mut i: usize = 0;
    while i < n
        invariant
            n == frame.key_ids@.len(),
            i <= n,
            ids@.len() == i,
            forall|j: int| 0 <= j < i ==> (#[trigger] ids@[j])@ == frame.key_ids@[j]@,
        decreases n - i,
    {
        ids.push(KeyId::new(frame.key_ids[i].as_str()));
        i = i + 1;
    }
    let ghost before = KeyFlow { gen: generator@, pool: pool@, flow: stats@ };
    assert(ids@.map_values(|k: KeyId| k@) =~= name_views(frame.key_ids@));
    let ok: usize = generator.on_acks(pool, stats, frame.from.as_str(), &ids);
    proof {
        lemma_moved_at_most(before, frame.from@, name_views(frame.key_ids@));
    }
    Some((ok, n - ok))
}

proof fn lemma_moved_at_most(f: KeyFlow, peer: Seq<char>, ids: Seq<Seq<char>>)
    ensures
        f.acknowledged_all(peer, ids).1 <= ids.len(),
    decreases ids.len(),
{
    if ids.len() > 0 {
        lemma_moved_at_most(f, peer, ids.drop_last());
    }
}

/// Sends acknowledgements to the addresses that peers announce.
#[derive(Debug)]
pub struct AckClient {
    pub my_dkms_id: String,
    pub connect_timeout_ms: u64,
    pub write_timeout_ms: u64,
}

impl AckClient {
    pub fn new(my_dkms_id: &str) -> (r: Self)
        ensures
            r.my_dkms_id@ == my_dkms_id@,
            r.connect_timeout_ms == ACK_SEND_TIMEOUT_MS,
            r.write_timeout_ms == ACK_SEND_TIMEOUT_MS,
    {
        AckClient {
            my_dkms_id: my_dkms_id.to_owned(),
            connect_timeout_ms: ACK_SEND_TIMEOUT_MS,
            write_timeout_ms: ACK_SEND_TIMEOUT_MS,
        }
    }

    /// The batch to send for these keys: nothing is sent for none.
    pub fn frame(&self, key_ids: &Vec<String>) -> (r: Option<AckFrame>)
        ensures
            match r {
                Some(f) => {
                    &&& key_ids@.len() > 0
                    &&& f.from@ == self.my_dkms_id@
                    &&& name_views(f.key_ids@) == name_views(key_ids@)
                },
                None => key_ids@.len() == 0,
            },
    {
        let n: usize = key_ids.len();
        if n == 0 {
            return None;
        }
        let mut ids: Vec<String> = Vec::new();
        let mut i: usize = 0;
        while i < n
            invariant
                n == key_ids@.len(),
                i <= n,
                ids@.len() == i,
                forall|j: int| 0 <= j < i ==> (#[trigger] ids@[j])@ == key_ids@[j]@,
            decreases n - i,
        {
            ids.push(key_ids[i].clone());
            i = i + 1;
        }
        assert(name_views(ids@) =~= name_views(key_ids@));
        Some(AckFrame { from: self.my_dkms_id.clone(), key_ids: ids })
    }
}

struct AckQueue {
    addr: String,
    key_ids: Vec<String>,
}

/// Acknowledgements that wait to be sent to one peer.
#[verifier::ext_equal]
pub struct QueueView {
    /// Where the peer wants them.
    pub addr: Seq<char>,
    pub key_ids: Seq<Seq<char>>,
}

impl View for AckQueue {
    type V = QueueView;

    closed spec fn view(&self) -> QueueView {
        QueueView { addr: self.addr@, key_ids: name_views(self.key_ids@) }
    }
}

/// Gathers acknowledgements and hands them out in batches.
pub struct BatchedAckClient {
    queues: Table<AckQueue>,
    max_keys: usize,
    authenticated: bool,
}

#[verifier::ext_equal]
pub struct AcksView {
    pub queues: Map<Seq<char>, QueueView>,
    pub max_keys: usize,
    /// Whether there is a way to send acknowledgements under this node's
    /// certificate.
    pub authenticated: bool,
}

/// A batch on its way.
#[derive(Debug)]
pub struct AckBatch {
    pub peer: String,
    pub addr: String,
    pub key_ids: Vec<String>,
}

impl AcksView {
    pub open spec fn of(self, peer: Seq<char>) -> Seq<Seq<char>> {
        if self.queues.dom().contains(peer) {
            self.queues[peer].key_ids
        } else {
            Seq::empty()
        }
    }

    /// Queues an acknowledgement; a queue that is full is handed out.
    pub open spec fn enqueued(
        self,
        peer: Seq<char>,
        addr: Seq<char>,
        key_id: Seq<char>,
    ) -> (Option<Seq<Seq<char>>>, AcksView) {
        let key_ids = self.of(peer).push(key_id);
        if key_ids.len() >= self.max_keys {
            (
                Some(key_ids),
                AcksView {
                    queues: self.queues.insert(peer, QueueView { addr, key_ids: Seq::empty() }),
                    ..self
                },
            )
        } else {
            (
                None,
                AcksView { queues: self.queues.insert(peer, QueueView { addr, key_ids }), ..self },
            )
        }
    }

    /// The same peers at the same addresses with nothing to acknowledge.
    pub open spec fn emptied(self) -> AcksView {
        AcksView {
            queues: self.queues.map_values(|q: QueueView| QueueView { key_ids: Seq::empty(), ..q }),
            ..self
        }
    }

    /// Whether a batch is what waits for its peer.
    pub open spec fn holds(self, b: AckBatch) -> bool {
        &&& self.queues.dom().contains(b.peer@)
        &&& self.queues[b.peer@] == (QueueView { addr: b.addr@, key_ids: name_views(b.key_ids@) })
        &&& b.key_ids@.len() > 0
    }

    /// Whether a peer can be acknowledged under this node's certificate.
    pub open spec fn has_route(self, peers: RegistryView, peer: Seq<char>) -> bool {
        &&& self.authenticated
        &&& peers.peers.dom().contains(peer)
        &&& peers.peers[peer].endpoint.len() > 0
    }
}

/// How a batch is sent.
pub enum AckRoute {
    /// To the peer's own address, under this node's certificate.
    Authenticated(PeerCfg),
    /// To the address that the peer announced.
    Socket,
    /// There is no way.
    Nowhere,
}

spec fn queue_views(m: Map<Seq<char>, AckQueue>) -> Map<Seq<char>, QueueView> {
    Map::new(|p: Seq<char>| m.dom().contains(p), |p: Seq<char>| m[p]@)
}

impl View for BatchedAckClient {
    type V = AcksView;

    closed spec fn view(&self) -> AcksView {
        AcksView {
            queues: queue_views(self.queues@),
            max_keys: self.max_keys,
            authenticated: self.authenticated,
        }
    }
}

impl BatchedAckClient {
    pub closed spec fn inv(self) -> bool {
        self.queues.inv()
    }

    /// A client that sends to the addresses that peers announce.
    pub fn new(max_keys: usize) -> (r: Self)
        ensures
            r.inv(),
            r@ == (AcksView { queues: Map::empty(), max_keys, authenticated: false }),
    {
        BatchedAckClient::with_transport(max_keys, false)
    }

    pub fn with_transport(max_keys: usize, authenticated: bool) -> (r: Self)
        ensures
            r.inv(),
            r@ == (AcksView { queues: Map::empty(), max_keys, authenticated }),
    {
        let r = BatchedAckClient { queues: Table::new(), max_keys, authenticated };
        assert(r@.queues =~= Map::<Seq<char>, QueueView>::empty());
        r
    }

    /// Queues an acknowledgement for the address that the peer announced last. A
    /// queue that is full is handed out, to be sent at once.
    pub fn enqueue(&mut self, stats: &mut FlowStats, peer: &str, addr: &str, key_id: &str) -> (r:
        Option<Vec<String>>)
        requires
            old(self).inv(),
            old(stats).inv(),
        ensures
            final(self).inv(),
            final(stats).inv(),
            final(stats)@ == old(stats)@.with(
                peer@,
                PeerFlow {
                    ack_enqueued: bumped(old(stats)@.of(peer@).ack_enqueued, 1),
                    ..old(stats)@.of(peer@)
                },
            ),
            ({
                let (batch, after) = old(self)@.enqueued(peer@, addr@, key_id@);
                &&& final(self)@ == after
                &&& match r {
                    Some(b) => batch == Some(name_views(b@)),
                    None => batch is None,
                }
            }),
    {
        stats.ack_enqueued(peer, 1);
        let ghost before = self@;
        let mut key_ids = match self.queues.remove(peer) {
            Some(q) => q.key_ids,
            None => Vec::new(),
        };
        let ghost prior = key_ids@;
        assert(name_views(prior) =~= before.of(peer@));
        key_ids.push(key_id.to_owned());
        assert(name_views(key_ids@) =~= before.of(peer@).push(key_id@));
        if key_ids.len() >= self.max_keys {
            let queue = AckQueue { addr: addr.to_owned(), key_ids: Vec::new() };
            assert(queue@.key_ids =~= Seq::<Seq<char>>::empty());
            let ghost qv = queue@;
            self.queues.insert(peer, queue);
            assert(self@.queues =~= before.queues.insert(peer@, qv));
            Some(key_ids)
        } else {
            let queue = AckQueue { addr: addr.to_owned(), key_ids };
            let ghost qv = queue@;
            self.queues.insert(peer, queue);
            assert(self@.queues =~= before.queues.insert(peer@, qv));
            None
        }
    }

    /// Hands out everything that waits.
    pub fn flush_all(&mut self) -> (r: Vec<AckBatch>)
        requires
            old(self).inv(),
        ensures
            final(self).inv(),
            final(self)@ == old(self)@.emptied(),
            forall|i: int| 0 <= i < r@.len() ==> old(self)@.holds(#[trigger] r@[i]),
            forall|i: int, j: int|
                0 <= i < j < r@.len() ==> (#[trigger] r@[i]).peer@ != (#[trigger] r@[j]).peer@,
            forall|p: Seq<char>|
                (#[trigger] old(self)@.of(p)).len() > 0 ==> exists|i: int|
                    0 <= i < r@.len() && (#[trigger] r@[i]).peer@ == p,
    {
        let ghost before = self@;
        let keys = self.queues.key_list();
        let ghost texts = name_views(keys@);
        proof {
            self.queues.lemma_keys();
            assert(before.queues.dom() =~= self.queues@.dom());
        }
        let n: usize = keys.len();
        let mut out: Vec<AckBatch> = Vec::new();
        let mut i: usize = 0;
        while i < n
            invariant
                n == keys@.len(),
                i <= n,
                texts == name_views(keys@),
                texts.no_duplicates(),
                texts.to_set() == before.queues.dom(),
                before == old(self)@,
                self.inv(),
                self@.max_keys == before.max_keys,
                self@.authenticated == before.authenticated,
                self@.queues.dom() == before.queues.dom(),
                forall|j: int|
                    0 <= j < i ==> self@.queues[#[trigger] texts[j]] == before.emptied().queues[texts[j]],
                forall|j: int|
                    i <= j < n ==> self@.queues[#[trigger] texts[j]] == before.queues[texts[j]],
                forall|a: int| 0 <= a < out@.len() ==> before.holds(#[trigger] out@[a]),
                forall|a: int|
                    0 <= a < out@.len() ==> texts.take(i as int).contains((#[trigger] out@[a]).peer@),
                forall|a: int, b: int|
                    0 <= a < b < out@.len() ==> (#[trigger] out@[a]).peer@ != (
                    #[trigger] out@[b]).peer@,
                forall|j: int|
                    0 <= j < i && before.queues[#[trigger] texts[j]].key_ids.len() > 0
                        ==> exists|a: int| 0 <= a < out@.len() && (#[trigger] out@[a]).peer@ == texts[j],
            decreases n - i,
        {
            let k = keys[i].as_str();
            let ghost kt = texts[i as int];
            let ghost s0 = self@;
            let ghost out0 = out@;
            proof {
                assert(kt == k@);
                assert(texts.to_set().contains(kt));
                assert(texts.take(i + 1) =~= texts.take(i as int).push(kt));
            }
            match self.queues.remove(k) {
                Some(q) => {
                    let ghost qv = q@;
                    assert(qv == before.queues[kt]);
                    let emptied = AckQueue { addr: q.addr.clone(), key_ids: Vec::new() };
                    let ghost ev = emptied@;
                    assert(ev =~= (QueueView { key_ids: Seq::empty(), ..qv }));
                    self.queues.insert(k, emptied);
                    assert(self@.queues =~= s0.queues.insert(kt, ev));
                    if q.key_ids.len() > 0 {
                        out.push(AckBatch { peer: keys[i].clone(), addr: q.addr, key_ids: q.key_ids });
                        assert(before.holds(out@[out0.len() as int]));
                    }
                },
                None => {},
            }
            proof {
                assert(self@.queues.dom() =~= before.queues.dom());
                assert forall|j: int| 0 <= j < n && j != i implies self@.queues[#[trigger] texts[j]]
                    == s0.queues[texts[j]] by {
                    assert(texts[j] != texts[i as int]);
                }
                assert forall|a: int| 0 <= a < out@.len() implies texts.take(i + 1).contains(
                    (#[trigger] out@[a]).peer@,
                ) by {
                    if a < out0.len() {
                        assert(out@[a] == out0[a]);
                        let j = choose|j: int|
                            0 <= j < i && texts.take(i as int)[j] == out0[a].peer@;
                        assert(texts.take(i + 1)[j] == out0[a].peer@);
                    } else {
                        assert(texts.take(i + 1)[i as int] == kt);
                    }
                }
                assert forall|a: int, b: int| 0 <= a < b < out@.len() implies (
                #[trigger] out@[a]).peer@ != (#[trigger] out@[b]).peer@ by {
                    if b == out0.len() {
                        assert(out@[a] == out0[a]);
                        let j = choose|j: int|
                            0 <= j < i && texts.take(i as int)[j] == out0[a].peer@;
                        assert(texts[j] != texts[i as int]);
                    }
                }
                assert forall|j: int| 0 <= j < i + 1 && before.queues[#[trigger] texts[j]].key_ids.len()
                    > 0 implies exists|a: int|
                    0 <= a < out@.len() && (#[trigger] out@[a]).peer@ == texts[j] by {
                    if j < i {
                        let a = choose|a: int|
                            0 <= a < out0.len() && (#[trigger] out0[a]).peer@ == texts[j];
                        assert(out@[a].peer@ == texts[j]);
                    } else {
                        assert(out@[out0.len() as int].peer@ == kt);
                    }
                }
            }
            i = i + 1;
        }
        proof {
            let after = before.emptied();
            assert forall|p: Seq<char>| #[trigger] self@.queues.dom().contains(p) implies self@.queues[p]
                == after.queues[p] by {
                assert(texts.to_set().contains(p));
                let j = choose|j: int| 0 <= j < texts.len() && texts[j] == p;
                assert(self@.queues[texts[j]] == after.queues[texts[j]]);
            }
            assert(self@.queues =~= after.queues);
            assert forall|p: Seq<char>| (#[trigger] before.of(p)).len() > 0 implies exists|a: int|
                0 <= a < out@.len() && (#[trigger] out@[a]).peer@ == p by {
                assert(texts.to_set().contains(p));
                let j = choose|j: int| 0 <= j < texts.len() && texts[j] == p;
                assert(before.queues[texts[j]].key_ids.len() > 0);
            }
        }
        out
    }

    /// Whether a peer can be acknowledged under this node's certificate, though it
    /// announces no address.
    pub fn has_etsi020_route(&self, peers: &PeerRegistry, peer: &str) -> (r: bool)
        requires
            peers.inv(),
        ensures
            r == self@.has_route(peers@, peer@),
    {
        if !self.authenticated {
            return false;
        }
        match peers.get(peer) {
            Some(cfg) => chars_of(cfg.endpoint.as_str()).len() > 0,
            None => false,
        }
    }

    /// How a batch is sent: under this node's certificate wherever that is possible,
    /// and else to the address that the peer announced.
    pub fn route(&self, peers: &PeerRegistry, peer: &str, addr: &str) -> (r: AckRoute)
        requires
            peers.inv(),
        ensures
            match r {
                AckRoute::Authenticated(cfg) => self@.has_route(peers@, peer@) && cfg@
                    == peers@.peers[peer@],
                AckRoute::Socket => !self@.has_route(peers@, peer@) && addr@.len() > 0,
                AckRoute::Nowhere => !self@.has_route(peers@, peer@) && addr@.len() == 0,
            },
    {
        if self.authenticated {
            if let Some(cfg) = peers.get(peer) {
                if chars_of(cfg.endpoint.as_str()).len() > 0 {
                    return AckRoute::Authenticated(cfg);
                }
            }
        }
        if chars_of(addr).len() == 0 {
            AckRoute::Nowhere
        } else {
            AckRoute::Socket
        }
    }
}

/// The counters once a batch of `n` keys was sent or was not.
pub open spec fn send_counted(flow: FlowView, peer: Seq<char>, n: u64, sent: bool) -> FlowView {
    let f = flow.of(peer);
    if sent {
        flow.with(peer, PeerFlow { ack_sent: bumped(f.ack_sent, n), ..f })
    } else {
        flow.with(peer, PeerFlow { ack_send_failed: bumped(f.ack_send_failed, n), ..f })
    }
}

/// Counts the keys of a batch by what came of it. A batch that failed on the
/// authenticated way is not sent by another.
pub fn count_send(stats: &mut FlowStats, peer: &str, keys: usize, sent: bool)
    requires
        old(stats).inv(),
    ensures
        final(stats).inv(),
        final(stats)@ == send_counted(old(stats)@, peer@, keys as u64, sent),
{
    if sent {
        stats.ack_sent(peer, keys as u64);
    } else {
        stats.ack_send_failed(peer, keys as u64);
    }
}

/// Acknowledgements are sent in the order in which they were queued, none twice and
/// none lost: what waits for a peer and what is handed out are together what
/// waited before and the new one.
pub proof fn queued_acks_are_kept(
    q: AcksView,
    peer: Seq<char>,
    addr: Seq<char>,
    key_id: Seq<char>,
)
    ensures
        ({
            let (batch, after) = q.enqueued(peer, addr, key_id);
            let out = match batch {
                Some(b) => b,
                None => Seq::empty(),
            };
            out + after.of(peer) == q.of(peer).push(key_id)
        }),
{
    let (batch, after) = q.enqueued(peer, addr, key_id);
    match batch {
        Some(b) => {
            assert(b + after.of(peer) =~= q.of(peer).push(key_id));
        },
        None => {
            assert(Seq::<Seq<char>>::empty() + after.of(peer) =~= q.of(peer).push(key_id));
        },
    }
}

/// No queue grows to the bound.
pub proof fn queues_stay_below_the_bound(
    q: AcksView,
    peer: Seq<char>,
    addr: Seq<char>,
    key_id: Seq<char>,
    other: Seq<char>,
)
    requires
        q.max_keys > 0,
        q.of(other).len() < q.max_keys,
    ensures
        q.enqueued(peer, addr, key_id).1.of(other).len() < q.max_keys,
{
}

/// A batch is handed out when its queue reaches the bound and not before. What waits
/// for a peer goes to the address that it gave last, and no other peer's queue is
/// touched.
pub proof fn batch_is_handed_out_at_the_bound(
    q: AcksView,
    peer: Seq<char>,
    addr: Seq<char>,
    key_id: Seq<char>,
    other: Seq<char>,
)
    requires
        other != peer,
    ensures
        ({
            let (batch, after) = q.enqueued(peer, addr, key_id);
            &&& batch is Some <==> q.of(peer).len() + 1 >= q.max_keys
            &&& batch matches Some(b) ==> b.len() == q.of(peer).len() + 1 && b.last() == key_id
                && after.of(peer).len() == 0
            &&& after.queues.dom().contains(peer) && after.queues[peer].addr == addr
            &&& after.queues.dom().contains(other) == q.queues.dom().contains(other)
            &&& q.queues.dom().contains(other) ==> after.queues[other] == q.queues[other]
            &&& after.max_keys == q.max_keys && after.authenticated == q.authenticated
        }),
{
}

/// Once everything is handed out nothing waits, and the addresses are still known.
pub proof fn handed_out_queues_are_empty(q: AcksView, peer: Seq<char>)
    ensures
        q.emptied().of(peer).len() == 0,
        q.emptied().queues.dom().contains(peer) == q.queues.dom().contains(peer),
        q.queues.dom().contains(peer) ==> q.emptied().queues[peer].addr == q.queues[peer].addr,
{
}

/// The keys of a batch are counted once, as sent or as failed, for the peer that
/// they were for.
pub proof fn batches_are_counted_once(
    flow: FlowView,
    peer: Seq<char>,
    n: u64,
    sent: bool,
    other: Seq<char>,
)
    requires
        other != peer,
        flow.of(peer).ack_sent + n <= u64::MAX,
        flow.of(peer).ack_send_failed + n <= u64::MAX,
    ensures
        ({
            let after = send_counted(flow, peer, n, sent);
            &&& sent ==> after.of(peer).ack_sent == flow.of(peer).ack_sent + n && after.of(
                peer,
            ).ack_send_failed == flow.of(peer).ack_send_failed
            &&& !sent ==> after.of(peer).ack_send_failed == flow.of(peer).ack_send_failed + n
                && after.of(peer).ack_sent == flow.of(peer).ack_sent
            &&& after.of(other) == flow.of(other)
        }),
{
}

/// A peer is acknowledged under this node's certificate exactly if there is a client
/// for that and the peer is known with an endpoint.
pub proof fn route_needs_a_known_endpoint(q: AcksView, peers: RegistryView, peer: Seq<char>)
    ensures
        q.has_route(peers, peer) <==> q.authenticated && peers.peers.dom().contains(peer)
            && peers.peers[peer].endpoint.len() > 0,
{
}

/// A batch that is handed out is all that waits for its peer, at the peer's address,
/// and is never empty.
pub proof fn batch_is_all_that_waits(q: AcksView, b: AckBatch)
    requires
        q.holds(b),
    ensures
        name_views(b.key_ids@) == q.of(b.peer@),
        q.of(b.peer@).len() > 0,
        b.addr@ == q.queues[b.peer@].addr,
{
}

} // verus!
