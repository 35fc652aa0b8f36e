//! Counters of the cycle in which keys are emitted, delivered and acknowledged.
use crate::peers::text_views;
use crate::table::Table;
use crate::text::{chars_of, starts_with, text_eq, text_range, text_starts_with};
use vstd::prelude::*;
use vstd::string::*;

verus! {

/// The counters of one peer.
#[derive(Debug, Clone, Copy, PartialEq, Eq, Structural)]
pub struct PeerFlow {
    pub emitted: u64,
    pub emit_failed: u64,
    pub acked: u64,
    pub ack_miss_unknown_peer: u64,
    pub ack_miss_unknown_key: u64,
    pub expired: u64,
    pub enc_full: u64,
    pub recv: u64,
    pub ack_enqueued: u64,
    pub ack_sent: u64,
    pub ack_send_failed: u64,
    pub ack_no_endpoint: u64,
    pub recv_corrupt: u64,
    pub recv_no_epoch: u64,
    pub recv_replayed: u64,
    pub dec_dropped: u64,
}

impl Default for PeerFlow {
    fn default() -> (r: Self)
        ensures
            r == PeerFlow::zero(),
    {
        PeerFlow {
            emitted: 0,
            emit_failed: 0,
            acked: 0,
            ack_miss_unknown_peer: 0,
            ack_miss_unknown_key: 0,
            expired: 0,
            enc_full: 0,
            recv: 0,
            ack_enqueued: 0,
            ack_sent: 0,
            ack_send_failed: 0,
            ack_no_endpoint: 0,
            recv_corrupt: 0,
            recv_no_epoch: 0,
            recv_replayed: 0,
            dec_dropped: 0,
        }
    }
}

/// Wrapping sum, as an atomic counter makes it.
pub open spec fn bumped(x: u64, n: u64) -> u64 {
    ((x + n) % 0x1_0000_0000_0000_0000) as u64
}

impl PeerFlow {
    pub open spec fn zero() -> PeerFlow {
        PeerFlow {
            emitted: 0,
            emit_failed: 0,
            acked: 0,
            ack_miss_unknown_peer: 0,
            ack_miss_unknown_key: 0,
            expired: 0,
            enc_full: 0,
            recv: 0,
            ack_enqueued: 0,
            ack_sent: 0,
            ack_send_failed: 0,
            ack_no_endpoint: 0,
            recv_corrupt: 0,
            recv_no_epoch: 0,
            recv_replayed: 0,
            dec_dropped: 0,
        }
    }
}

#[verifier::ext_equal]
pub struct FlowView {
    pub peers: Map<Seq<char>, PeerFlow>,
    /// Where each peer wants to be acknowledged.
    pub endpoints: Map<Seq<char>, Seq<char>>,
}

impl FlowView {
    pub open spec fn of(self, peer: Seq<char>) -> PeerFlow {
        if self.peers.dom().contains(peer) {
            self.peers[peer]
        } else {
            PeerFlow::zero()
        }
    }

    pub open spec fn with(self, peer: Seq<char>, flow: PeerFlow) -> FlowView {
        FlowView { peers: self.peers.insert(peer, flow), ..self }
    }
}

/// The counters of all peers.
pub struct FlowStats {
    peers: Table<PeerFlow>,
    endpoints: Table<String>,
}

impl View for FlowStats {
    type V = FlowView;

    closed spec fn view(&self) -> FlowView {
        FlowView { peers: self.peers@, endpoints: text_views(self.endpoints@) }
    }
}

impl FlowStats {
    pub closed spec fn inv(self) -> bool {
        self.peers.inv() && self.endpoints.inv()
    }

    pub fn new() -> (r: Self)
        ensures
            r.inv(),
            r@ == (FlowView { peers: Map::empty(), endpoints: Map::empty() }),
    {
        let r = FlowStats { peers: Table::new(), endpoints: Table::new() };
        assert(r@.endpoints =~= Map::<Seq<char>, Seq<char>>::empty());
        r
    }

    /// The counters of a peer, which start at zero.
    pub fn peer(&self, peer: &str) -> (r: PeerFlow)
        requires
            self.inv(),
        ensures
            r == self@.of(peer@),
    {
        match self.peers.get(peer) {
            Some(f) => *f,
            None => PeerFlow::default(),
        }
    }

    pub fn emitted(&mut self, peer: &str, n: u64)
        requires
            old(self).inv(),
        ensures
            final(self).inv(),
            final(self)@ == old(self)@.with(
                peer@,
                PeerFlow {
                    emitted: bumped(old(self)@.of(peer@).emitted, n),
                    ..old(self)@.of(peer@)
                },
            ),
    {
        let mut f = self.peer(peer);
        f.emitted = f.emitted.wrapping_add(n);
        self.peers.insert(peer, f);
    }

    pub fn emit_failed(&mut self, peer: &str, n: u64)
        requires
            old(self).inv(),
        ensures
            final(self).inv(),
            final(self)@ == old(self)@.with(
                peer@,
                PeerFlow {
                    emit_failed: bumped(old(self)@.of(peer@).emit_failed, n),
                    ..old(self)@.of(peer@)
                },
            ),
    {
        let mut f = self.peer(peer);
        f.emit_failed = f.emit_failed.wrapping_add(n);
        self.peers.insert(peer, f);
    }

    pub fn acked(&mut self, peer: &str, n: u64)
        requires
            old(self).inv(),
        ensures
            final(self).inv(),
            final(self)@ == old(self)@.with(
                peer@,
                PeerFlow {
                    acked: bumped(old(self)@.of(peer@).acked, n),
                    ..old(self)@.of(peer@)
                },
            ),
    {
        let mut f = self.peer(peer);
        f.acked = f.acked.wrapping_add(n);
        self.peers.insert(peer, f);
    }

    pub fn ack_miss_unknown_peer(&mut self, peer: &str, n: u64)
        requires
            old(self).inv(),
        ensures
            final(self).inv(),
            final(self)@ == old(self)@.with(
                peer@,
                PeerFlow {
                    ack_miss_unknown_peer: bumped(old(self)@.of(peer@).ack_miss_unknown_peer, n),
                    ..old(self)@.of(peer@)
                },
            ),
    {
        let mut f = self.peer(peer);
        f.ack_miss_unknown_peer = f.ack_miss_unknown_peer.wrapping_add(n);
        self.peers.insert(peer, f);
    }

    pub fn ack_miss_unknown_key(&mut self, peer: &str, n: u64)
        requires
            old(self).inv(),
        ensures
            final(self).inv(),
            final(self)@ == old(self)@.with(
                peer@,
                PeerFlow {
                    ack_miss_unknown_key: bumped(old(self)@.of(peer@).ack_miss_unknown_key, n),
                    ..old(self)@.of(peer@)
                },
            ),
    {
        let mut f = self.peer(peer);
        f.ack_miss_unknown_key = f.ack_miss_unknown_key.wrapping_add(n);
        self.peers.insert(peer, f);
    }

    pub fn expired(&mut self, peer: &str, n: u64)
        requires
            old(self).inv(),
        ensures
            final(self).inv(),
            final(self)@ == old(self)@.with(
                peer@,
                PeerFlow {
                    expired: bumped(old(self)@.of(peer@).expired, n),
                    ..old(self)@.of(peer@)
                },
            ),
    {
        let mut f = self.peer(peer);
        f.expired = f.expired.wrapping_add(n);
        self.peers.insert(peer, f);
    }

    pub fn enc_full(&mut self, peer: &str, n: u64)
        requires
            old(self).inv(),
        ensures
            final(self).inv(),
            final(self)@ == old(self)@.with(
                peer@,
                PeerFlow {
                    enc_full: bumped(old(self)@.of(peer@).enc_full, n),
                    ..old(self)@.of(peer@)
                },
            ),
    {
        let mut f = self.peer(peer);
        f.enc_full = f.enc_full.wrapping_add(n);
        self.peers.insert(peer, f);
    }

    pub fn recv(&mut self, peer: &str, n: u64)
        requires
            old(self).inv(),
        ensures
            final(self).inv(),
            final(self)@ == old(self)@.with(
                peer@,
                PeerFlow {
                    recv: bumped(old(self)@.of(peer@).recv, n),
                    ..old(self)@.of(peer@)
                },
            ),
    {
        let mut f = self.peer(peer);
        f.recv = f.recv.wrapping_add(n);
        self.peers.insert(peer, f);
    }

    pub fn ack_enqueued(&mut self, peer: &str, n: u64)
        requires
            old(self).inv(),
        ensures
            final(self).inv(),
            final(self)@ == old(self)@.with(
                peer@,
                PeerFlow {
                    ack_enqueued: bumped(old(self)@.of(peer@).ack_enqueued, n),
                    ..old(self)@.of(peer@)
                },
            ),
    {
        let mut f = self.peer(peer);
        f.ack_enqueued = f.ack_enqueued.wrapping_add(n);
        self.peers.insert(peer, f);
    }

    pub fn ack_sent(&mut self, peer: &str, n: u64)
        requires
            old(self).inv(),
        ensures
            final(self).inv(),
            final(self)@ == old(self)@.with(
                peer@,
                PeerFlow {
                    ack_sent: bumped(old(self)@.of(peer@).ack_sent, n),
                    ..old(self)@.of(peer@)
                },
            ),
    {
        let mut f = self.peer(peer);
        f.ack_sent = f.ack_sent.wrapping_add(n);
        self.peers.insert(peer, f);
    }

    pub fn ack_send_failed(&mut self, peer: &str, n: u64)
        requires
            old(self).inv(),
        ensures
            final(self).inv(),
            final(self)@ == old(self)@.with(
                peer@,
                PeerFlow {
                    ack_send_failed: bumped(old(self)@.of(peer@).ack_send_failed, n),
                    ..old(self)@.of(peer@)
                },
            ),
    {
        let mut f = self.peer(peer);
        f.ack_send_failed = f.ack_send_failed.wrapping_add(n);
        self.peers.insert(peer, f);
    }

    pub fn ack_no_endpoint(&mut self, peer: &str, n: u64)
        requires
            old(self).inv(),
        ensures
            final(self).inv(),
            final(self)@ == old(self)@.with(
                peer@,
                PeerFlow {
                    ack_no_endpoint: bumped(old(self)@.of(peer@).ack_no_endpoint, n),
                    ..old(self)@.of(peer@)
                },
            ),
    {
        let mut f = self.peer(peer);
        f.ack_no_endpoint = f.ack_no_endpoint.wrapping_add(n);
        self.peers.insert(peer, f);
    }

    pub fn recv_corrupt(&mut self, peer: &str, n: u64)
        requires
            old(self).inv(),
        ensures
            final(self).inv(),
            final(self)@ == old(self)@.with(
                peer@,
                PeerFlow {
                    recv_corrupt: bumped(old(self)@.of(peer@).recv_corrupt, n),
                    ..old(self)@.of(peer@)
                },
            ),
    {
        let mut f = self.peer(peer);
        f.recv_corrupt = f.recv_corrupt.wrapping_add(n);
        self.peers.insert(peer, f);
    }

    pub fn recv_no_epoch(&mut self, peer: &str, n: u64)
        requires
            old(self).inv(),
        ensures
            final(self).inv(),
            final(self)@ == old(self)@.with(
                peer@,
                PeerFlow {
                    recv_no_epoch: bumped(old(self)@.of(peer@).recv_no_epoch, n),
                    ..old(self)@.of(peer@)
                },
            ),
    {
        let mut f = self.peer(peer);
        f.recv_no_epoch = f.recv_no_epoch.wrapping_add(n);
        self.peers.insert(peer, f);
    }

    pub fn recv_replayed(&mut self, peer: &str, n: u64)
        requires
            old(self).inv(),
        ensures
            final(self).inv(),
            final(self)@ == old(self)@.with(
                peer@,
                PeerFlow {
                    recv_replayed: bumped(old(self)@.of(peer@).recv_replayed, n),
                    ..old(self)@.of(peer@)
                },
            ),
    {
        let mut f = self.peer(peer);
        f.recv_replayed = f.recv_replayed.wrapping_add(n);
        self.peers.insert(peer, f);
    }

    pub fn dec_dropped(&mut self, peer: &str, n: u64)
        requires
            old(self).inv(),
        ensures
            final(self).inv(),
            final(self)@ == old(self)@.with(
                peer@,
                PeerFlow {
                    dec_dropped: bumped(old(self)@.of(peer@).dec_dropped, n),
                    ..old(self)@.of(peer@)
                },
            ),
    {
        let mut f = self.peer(peer);
        f.dec_dropped = f.dec_dropped.wrapping_add(n);
        self.peers.insert(peer, f);
    }

    /// Notes where a peer wants to be acknowledged, and says whether that is news.
    pub fn note_endpoint(&mut self, peer: &str, endpoint: &str) -> (r: bool)
        requires
            old(self).inv(),
        ensures
            final(self).inv(),
            r == !(old(self)@.endpoints.contains_pair(peer@, endpoint@)),
            final(self)@ == (FlowView {
                endpoints: old(self)@.endpoints.insert(peer@, endpoint@),
                ..old(self)@
            }),
    {
        let ghost before = self@;
        let same: bool = match self.endpoints.get(peer) {
            Some(e) => text_eq(e.as_str(), endpoint),
            None => false,
        };
        if same {
            assert(self@.endpoints =~= before.endpoints.insert(peer@, endpoint@));
            return false;
        }
        self.endpoints.insert(peer, endpoint.to_owned());
        assert(self@.endpoints =~= before.endpoints.insert(peer@, endpoint@));
        true
    }

    pub fn endpoint_of(&self, peer: &str) -> (r: Option<String>)
        requires
            self.inv(),
        ensures
            match r {
                Some(e) => self@.endpoints.contains_pair(peer@, e@),
                None => !self@.endpoints.dom().contains(peer@),
            },
    {
        match self.endpoints.get(peer) {
            Some(e) => Some(e.clone()),
            None => None,
        }
    }

    /// The peers that have counters, each once.
    pub fn peer_ids(&self) -> (r: Vec<String>)
        requires
            self.inv(),
        ensures
            r@.map_values(|s: String| s@).no_duplicates(),
            r@.map_values(|s: String| s@).to_set() == self@.peers.dom(),
    {
        proof {
            self.peers.lemma_keys();
        }
        self.peers.key_list()
    }
}

/// What an address for acknowledgements is worth to another node.
#[derive(Debug, Clone, Copy, PartialEq, Eq, Structural)]
pub enum EndpointVerdict {
    Routable,
    /// No address at all.
    Wildcard,
    /// An address of the sender's own machine.
    Loopback,
}

/// Position of the last colon.
pub open spec fn last_colon(s: Seq<char>) -> Option<int>
    decreases s.len(),
{
    if s.len() == 0 {
        None
    } else if s.last() == ':' {
        Some(s.len() - 1)
    } else {
        last_colon(s.drop_last())
    }
}

pub open spec fn strip_open(s: Seq<char>) -> Seq<char>
    decreases s.len(),
{
    if s.len() > 0 && s[0] == '[' {
        strip_open(s.drop_first())
    } else {
        s
    }
}

pub open spec fn strip_close(s: Seq<char>) -> Seq<char>
    decreases s.len(),
{
    if s.len() > 0 && s.last() == ']' {
        strip_close(s.drop_last())
    } else {
        s
    }
}

/// The host of an address: what stands before the last colon, without brackets.
pub open spec fn host_of(endpoint: Seq<char>) -> Seq<char> {
    match last_colon(endpoint) {
        Some(i) => strip_close(strip_open(endpoint.take(i))),
        None => endpoint,
    }
}

pub open spec fn verdict_on_host(host: Seq<char>) -> EndpointVerdict {
    if host == "0.0.0.0"@ || host == "::"@ || host == ""@ {
        EndpointVerdict::Wildcard
    } else if host == "127.0.0.1"@ || host == "::1"@ || host == "localhost"@ || starts_with(
        host,
        "127."@,
    ) {
        EndpointVerdict::Loopback
    } else {
        EndpointVerdict::Routable
    }
}

/// Whether an address for acknowledgements can be reached from elsewhere.
pub fn classify_endpoint(endpoint: &str) -> (r: EndpointVerdict)
    ensures
        r == verdict_on_host(host_of(endpoint@)),
{
    let v = chars_of(endpoint);
    let n: usize = v.len();
    let mut i: usize = n;
    assert(v@.take(n as int) =~= v@);
    while i > 0 && v[i - 1] != ':'
        invariant
            n == v@.len(),
            v@ == endpoint@,
            i <= n,
            last_colon(v@) == last_colon(v@.take(i as int)),
        decreases i,
    {
        assert(v@.take(i as int).drop_last() =~= v@.take(i - 1));
        i = i - 1;
    }
    let host = if i == 0 {
        assert(v@.take(0) =~= Seq::<char>::empty());
        endpoint.to_owned()
    } else {
        let end: usize = i - 1;
        let ghost h = v@.take(end as int);
        assert(v@.take(i as int).last() == ':');
        let mut a: usize = 0;
        assert(h.skip(0) =~= h);
        while a < end && v[a] == '['
            invariant
                n == v@.len(),
                end <= n,
                h == v@.take(end as int),
                a <= end,
                strip_open(h) == strip_open(h.skip(a as int)),
            decreases end - a,
        {
            assert(h.skip(a as int).drop_first() =~= h.skip(a + 1));
            a = a + 1;
        }
        let ghost t = h.skip(a as int);
        assert(strip_open(h) == t);
        let mut b: usize = end;
        assert(t.take(b - a) =~= t);
        while b > a && v[b - 1] == ']'
            invariant
                n == v@.len(),
                a <= b <= end <= n,
                h == v@.take(end as int),
                t == h.skip(a as int),
                strip_close(t) == strip_close(t.take(b - a)),
            decreases b,
        {
            assert(t.take(b - a).drop_last() =~= t.take(b - a - 1));
            b = b - 1;
        }
        let s = text_range(&v, a, b);
        assert(s@ =~= t.take(b - a));
        s
    };
    let h = host.as_str();
    if text_eq(h, "0.0.0.0") || text_eq(h, "::") || text_eq(h, "") {
        EndpointVerdict::Wildcard
    } else if text_eq(h, "127.0.0.1") || text_eq(h, "::1") || text_eq(h, "localhost")
        || text_starts_with(h, "127.") {
        EndpointVerdict::Loopback
    } else {
        EndpointVerdict::Routable
    }
}

proof fn lemma_last_colon(host: Seq<char>, port: Seq<char>)
    requires
        forall|i: int| 0 <= i < port.len() ==> #[trigger] port[i] != ':',
    ensures
        last_colon(host.push(':') + port) == Some(host.len() as int),
    decreases port.len(),
{
    let s = host.push(':') + port;
    if port.len() == 0 {
        assert(s =~= host.push(':'));
    } else {
        assert(s.last() == port[port.len() - 1]);
        let front = port.drop_last();
        assert forall|i: int| 0 <= i < front.len() implies #[trigger] front[i] != ':' by {
            assert(front[i] == port[i]);
        }
        lemma_last_colon(host, front);
        assert(s.drop_last() =~= host.push(':') + front);
    }
}

proof fn lemma_no_colon(s: Seq<char>)
    requires
        forall|i: int| 0 <= i < s.len() ==> #[trigger] s[i] != ':',
    ensures
        last_colon(s) is None,
    decreases s.len(),
{
    if s.len() > 0 {
        let front = s.drop_last();
        assert(s[s.len() - 1] != ':');
        assert forall|i: int| 0 <= i < front.len() implies #[trigger] front[i] != ':' by {
            assert(front[i] == s[i]);
        }
        lemma_no_colon(front);
    }
}

/// The host of an address is what stands before its port, in brackets or not; an
/// address without a port is a host.
pub proof fn host_stands_before_the_port(host: Seq<char>, port: Seq<char>)
    requires
        forall|i: int| 0 <= i < port.len() ==> #[trigger] port[i] != ':',
        host.len() > 0 ==> host[0] != '[' && host.last() != ']',
    ensures
        host_of(host.push(':') + port) == host,
        host.len() > 0 ==> host_of(seq!['['] + host + seq![']'] + seq![':'] + port) == host,
        host_of(port) == port,
{
    lemma_last_colon(host, port);
    assert((host.push(':') + port).take(host.len() as int) =~= host);
    if host.len() > 0 {
        let boxed = seq!['['] + host + seq![']'];
        lemma_last_colon(boxed, port);
        let s = seq!['['] + host + seq![']'] + seq![':'] + port;
        assert(s =~= boxed.push(':') + port);
        assert(s.take(boxed.len() as int) =~= boxed);
        assert(boxed[0] == '[');
        assert(boxed.drop_first() =~= host + seq![']']);
        let open = host + seq![']'];
        assert(open[0] == host[0]);
        assert(strip_open(open) == open);
        assert(strip_open(boxed) == open);
        assert(open.last() == ']');
        assert(open.drop_last() =~= host);
    }
    lemma_no_colon(port);
}

/// An address that others can use names a host, and not one of the sender's own
/// machine.
pub proof fn only_other_hosts_are_routable(host: Seq<char>)
    ensures
        verdict_on_host(host) == EndpointVerdict::Wildcard <==> host.len() == 0 || host == "0.0.0.0"@
            || host == "::"@,
        verdict_on_host(host) == EndpointVerdict::Loopback <==> starts_with(host, "127."@) || host
            == "::1"@ || host == "localhost"@,
        verdict_on_host(host) == EndpointVerdict::Routable <==> host.len() > 0 && host != "0.0.0.0"@
            && host != "::"@ && !starts_with(host, "127."@) && host != "::1"@ && host
            != "localhost"@,
{
    reveal_strlit("");
    reveal_strlit("0.0.0.0");
    reveal_strlit("::");
    reveal_strlit("127.0.0.1");
    reveal_strlit("::1");
    reveal_strlit("localhost");
    reveal_strlit("127.");
    assert(host.len() == 0 ==> host =~= ""@);
    assert("127.0.0.1"@.subrange(0, 4) =~= "127."@);
    if starts_with(host, "127."@) {
        assert(host.subrange(0, 4)[0] == '1');
        assert(host[0] == '1');
    }
    assert("0.0.0.0"@[0] != '1' && "::"@[0] != '1');
    assert("::1"@.len() == 3 && "localhost"@.len() == 9);
    assert("::"@.len() == 2 && "0.0.0.0"@.len() == 7);
}

/// A counter goes on by what is counted, and counting for one peer leaves the others.
pub proof fn counters_go_on(flow: FlowView, peer: Seq<char>, f: PeerFlow, other: Seq<char>, x: u64, n: u64)
    requires
        other != peer,
    ensures
        x + n <= u64::MAX ==> bumped(x, n) == x + n,
        flow.with(peer, f).of(peer) == f,
        flow.with(peer, f).of(other) == flow.of(other),
        flow.with(peer, f).endpoints == flow.endpoints,
{
}

/// A peer of which nothing was counted has counted nothing.
pub proof fn counters_begin_at_nought(flow: FlowView, peer: Seq<char>)
    requires
        !flow.peers.dom().contains(peer),
    ensures
        flow.of(peer).emitted == 0,
        flow.of(peer).acked == 0,
        flow.of(peer).recv == 0,
        flow.of(peer).expired == 0,
{
}

} // verus!
