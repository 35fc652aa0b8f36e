//! Which application entities use the keys of a peer. A peer's keys are shared out
//! among those that asked for some within a window of time.
use crate::table::Table;
use vstd::prelude::*;
use vstd::string::*;

verus! {

/// When each entity last asked for keys of each peer.
pub type Requests = Map<Seq<char>, Map<Seq<char>, u64>>;

pub struct SaeActivity {
    requests: Table<Table<u64>>,
    last_eviction: Option<u64>,
    window_ns: u64,
}

#[verifier::ext_equal]
pub struct ActivityView {
    pub requests: Requests,
    pub last_eviction: Option<u64>,
    pub window_ns: u64,
}

impl ActivityView {
    pub open spec fn of(self, peer: Seq<char>) -> Map<Seq<char>, u64> {
        if self.requests.dom().contains(peer) {
            self.requests[peer]
        } else {
            Map::empty()
        }
    }

    /// Whether a request at `at_ns` is older than the window.
    pub open spec fn is_stale(self, at_ns: u64, now_ns: u64) -> bool {
        now_ns - at_ns > self.window_ns
    }

    /// Whether the entity asked for keys of the peer, but not within the window.
    pub open spec fn stale(self, peer: Seq<char>, sae: Seq<char>, now_ns: u64) -> bool {
        self.of(peer).dom().contains(sae) && self.is_stale(self.of(peer)[sae], now_ns)
    }

    pub open spec fn registered(self, peer: Seq<char>, sae: Seq<char>, now_ns: u64) -> ActivityView {
        ActivityView {
            requests: self.requests.insert(peer, self.of(peer).insert(sae, now_ns)),
            ..self
        }
    }

    /// The entities that asked for keys of the peer within the window.
    pub open spec fn active(self, peer: Seq<char>, now_ns: u64) -> Set<Seq<char>> {
        self.of(peer).dom().filter(|s: Seq<char>| !self.is_stale(self.of(peer)[s], now_ns))
    }

    /// Whether it is time to forget old requests: at most once in a window.
    pub open spec fn due(self, now_ns: u64) -> bool {
        match self.last_eviction {
            Some(last) => now_ns - last >= self.window_ns || self.window_ns == 0,
            None => true,
        }
    }

    pub open spec fn live(self, b: Map<Seq<char>, u64>, now_ns: u64) -> Map<Seq<char>, u64> {
        b.restrict(b.dom().filter(|s: Seq<char>| !self.is_stale(b[s], now_ns)))
    }

    /// Without the old requests.
    pub open spec fn evicted(self, now_ns: u64) -> ActivityView {
        ActivityView {
            requests: self.requests.map_values(|b: Map<Seq<char>, u64>| self.live(b, now_ns)),
            last_eviction: Some(now_ns),
            ..self
        }
    }
}

spec fn bucket_views(m: Map<Seq<char>, Table<u64>>) -> Requests {
    Map::new(|p: Seq<char>| m.dom().contains(p), |p: Seq<char>| m[p]@)
}

impl View for SaeActivity {
    type V = ActivityView;

    closed spec fn view(&self) -> ActivityView {
        ActivityView {
            requests: bucket_views(self.requests@),
            last_eviction: self.last_eviction,
            window_ns: self.window_ns,
        }
    }
}

/// Takes the old requests out of one peer's list and adds them to `gone`.
fn evict_bucket(
    bucket: &mut Table<u64>,
    peer: &str,
    window_ns: u64,
    now_ns: u64,
    gone: &mut Vec<(String, String)>,
)
    requires
        old(bucket).inv(),
    ensures
        final(bucket).inv(),
        final(bucket)@ == old(bucket)@.restrict(
            old(bucket)@.dom().filter(|s: Seq<char>| now_ns - old(bucket)@[s] <= window_ns),
        ),
        final(gone)@.len() >= old(gone)@.len(),
        forall|i: int| 0 <= i < old(gone)@.len() ==> #[trigger] final(gone)@[i] == old(gone)@[i],
        forall|i: int|
            old(gone)@.len() <= i < final(gone)@.len() ==> {
                let g = #[trigger] final(gone)@[i];
                g.0@ == peer@ && old(bucket)@.dom().contains(g.1@) && now_ns - old(bucket)@[g.1@]
                    > window_ns
            },
        forall|s: Seq<char>| #[trigger]
            old(bucket)@.dom().contains(s) && now_ns - old(bucket)@[s] > window_ns
                ==> exists|i: int|
                old(gone)@.len() <= i < final(gone)@.len() && (#[trigger] final(gone)@[i]).1@ == s,
{
    let ghost before = bucket@;
    let ghost gone0 = gone@;
    let keys = bucket.key_list();
    let ghost texts = keys@.map_values(|s: String| s@);
    proof {
        bucket.lemma_keys();
    }
    let n: usize = keys.len();
    let mut i: usize = 0;
    while i < n
        invariant
            n == keys@.len(),
            i <= n,
            texts == keys@.map_values(|s: String| s@),
            texts.no_duplicates(),
            texts.to_set() == before.dom(),
            bucket.inv(),
            forall|s: Seq<char>| #[trigger]
                bucket@.dom().contains(s) ==> before.contains_pair(s, bucket@[s]),
            forall|j: int| i <= j < n ==> bucket@.dom().contains(#[trigger] texts[j]),
            forall|j: int|
                0 <= j < i ==> bucket@.dom().contains(#[trigger] texts[j]) == (now_ns
                    - before[texts[j]] <= window_ns),
            gone@.len() >= gone0.len(),
            forall|k: int| 0 <= k < gone0.len() ==> #[trigger] gone@[k] == gone0[k],
            forall|k: int|
                gone0.len() <= k < gone@.len() ==> {
                    let g = #[trigger] gone@[k];
                    g.0@ == peer@ && before.dom().contains(g.1@) && now_ns - before[g.1@]
                        > window_ns
                },
            forall|j: int|
                0 <= j < i && now_ns - before[#[trigger] texts[j]] > window_ns ==> exists|k: int|
                    gone0.len() <= k < gone@.len() && (#[trigger] gone@[k]).1@ == texts[j],
        decreases n - i,
    {
        let k = keys[i].as_str();
        let ghost kt = texts[i as int];
        let ghost b0 = bucket@;
        let ghost g0 = gone@;
        assert(k@ == kt);
        assert(b0.dom().contains(kt));
        let old_request: bool = match bucket.get(k) {
            Some(t) => now_ns.saturating_sub(*t) > window_ns,
            None => false,
        };
        if old_request {
            bucket.remove(k);
            gone.push((peer.to_owned(), keys[i].clone()));
            assert(gone@[g0.len() as int].1@ == kt);
        }
        proof {
            assert forall|j: int| 0 <= j < n && j != i implies bucket@.dom().contains(
                #[trigger] texts[j],
            ) == b0.dom().contains(texts[j]) by {
                assert(texts[j] != texts[i as int]);
            }
            assert forall|j: int| 0 <= j < i + 1 && now_ns - before[#[trigger] texts[j]]
                > window_ns implies exists|k: int|
                gone0.len() <= k < gone@.len() && (#[trigger] gone@[k]).1@ == texts[j] by {
                if j < i {
                    let k = choose|k: int|
                        gone0.len() <= k < g0.len() && (#[trigger] g0[k]).1@ == texts[j];
                    assert(gone@[k].1@ == texts[j]);
                }
            }
        }
        i = i + 1;
    }
    proof {
        let after = before.restrict(before.dom().filter(|s: Seq<char>| now_ns - before[s] <= window_ns));
        assert forall|s: Seq<char>| #[trigger] bucket@.dom().contains(s) == after.dom().contains(s) by {
            if before.dom().contains(s) {
                assert(texts.to_set().contains(s));
                let j = choose|j: int| 0 <= j < texts.len() && texts[j] == s;
                assert(bucket@.dom().contains(texts[j]) == (now_ns - before[texts[j]] <= window_ns));
            }
        }
        assert(bucket@ =~= after);
        assert forall|s: Seq<char>| #[trigger] before.dom().contains(s) && now_ns - before[s]
            > window_ns implies exists|k: int|
            gone0.len() <= k < gone@.len() && (#[trigger] gone@[k]).1@ == s by {
            assert(texts.to_set().contains(s));
            let j = choose|j: int| 0 <= j < texts.len() && texts[j] == s;
            assert(now_ns - before[texts[j]] > window_ns);
        }
    }
}

impl SaeActivity {
    pub closed spec fn inv(self) -> bool {
        &&& self.requests.inv()
        &&& forall|p: Seq<char>| #[trigger]
            self.requests@.dom().contains(p) ==> self.requests@[p].inv()
    }

    pub fn new(window_ns: u64) -> (r: Self)
        ensures
            r.inv(),
            r@ == (ActivityView { requests: Map::empty(), last_eviction: None, window_ns }),
    {
        let r = SaeActivity { requests: Table::new(), last_eviction: None, window_ns };
        assert(r@.requests =~= Map::<Seq<char>, Map<Seq<char>, u64>>::empty());
        r
    }

    /// Notes that an entity asks for keys of a peer.
    pub fn register_request(&mut self, peer: &str, sae: &str, now_ns: u64)
        requires
            old(self).inv(),
        ensures
            final(self).inv(),
            final(self)@ == old(self)@.registered(peer@, sae@, now_ns),
    {
        let ghost before = self@;
        let mut bucket = match self.requests.remove(peer) {
            Some(b) => b,
            None => Table::new(),
        };
        let ghost b0 = bucket@;
        assert(b0 =~= before.of(peer@));
        bucket.insert(sae, now_ns);
        let ghost b1 = bucket@;
        self.requests.insert(peer, bucket);
        assert(self@.requests =~= before.requests.insert(peer@, b1));
    }

    /// How many entities a peer's keys are shared among: one at least.
    pub fn active_sae_count(&self, peer: &str, now_ns: u64) -> (r: usize)
        requires
            self.inv(),
        ensures
            r == (if self@.active(peer@, now_ns).len() == 0 {
                1
            } else {
                self@.active(peer@, now_ns).len() as int
            }),
            r >= 1,
            r >= self@.active(peer@, now_ns).len(),
    {
        let ghost all = self@.active(peer@, now_ns);
        let bucket = match self.requests.get(peer) {
            Some(b) => b,
            None => {
                assert(all =~= Set::<Seq<char>>::empty());
                return 1;
            },
        };
        assert(bucket@ == self@.of(peer@));
        proof {
            bucket.lemma_keys();
        }
        let ghost keys = bucket.keys();
        let n: usize = bucket.len();
        let mut count: usize = 0;
        let mut i: usize = 0;
        let ghost mut seen: Set<Seq<char>> = Set::empty();
        while i < n
            invariant
                bucket.inv(),
                bucket@ == self@.of(peer@),
                all == self@.active(peer@, now_ns),
                keys == bucket.keys(),
                keys.no_duplicates(),
                n == keys.len(),
                i <= n,
                count <= i,
                seen.finite(),
                count == seen.len(),
                self.window_ns == self@.window_ns,
                forall|s: Seq<char>| #[trigger]
                    seen.contains(s) <==> all.contains(s) && keys.take(i as int).contains(s),
            decreases n - i,
        {
            let (s, t) = bucket.entry(i);
            let ghost kt = keys[i as int];
            assert(keys.take(i + 1) =~= keys.take(i as int).push(kt));
            assert(!keys.take(i as int).contains(kt)) by {
                if keys.take(i as int).contains(kt) {
                    let j = choose|j: int| 0 <= j < i && keys.take(i as int)[j] == kt;
                    assert(keys[j] == keys[i as int]);
                }
            }
            let ghost seen0 = seen;
            if now_ns.saturating_sub(*t) <= self.window_ns {
                count = count + 1;
                proof {
                    assert(all.contains(kt));
                    seen = seen0.insert(kt);
                }
            }
            proof {
                assert forall|q: Seq<char>| #[trigger] seen.contains(q) <==> all.contains(q)
                    && keys.take(i + 1).contains(q) by {
                    if keys.take(i as int).contains(q) {
                        let j = choose|j: int| 0 <= j < i && keys.take(i as int)[j] == q;
                        assert(keys.take(i + 1)[j] == q);
                    }
                    if q == kt {
                        assert(keys.take(i + 1)[i as int] == kt);
                    }
                }
            }
            i = i + 1;
        }
        proof {
            assert(keys.take(n as int) =~= keys);
            assert forall|s: Seq<char>| #[trigger] seen.contains(s) <==> all.contains(s) by {
                if all.contains(s) {
                    assert(keys.to_set().contains(s));
                }
            }
            assert(seen =~= all);
        }
        if count == 0 {
            1
        } else {
            count
        }
    }

    /// Forgets old requests, at most once in a window. Says which entity is
    /// forgotten for which peer.
    pub fn maybe_evict(&mut self, now_ns: u64) -> (r: Vec<(String, String)>)
        requires
            old(self).inv(),
        ensures
            final(self).inv(),
            final(self)@ == (if old(self)@.due(now_ns) {
                old(self)@.evicted(now_ns)
            } else {
                old(self)@
            }),
            forall|i: int|
                0 <= i < r@.len() ==> old(self)@.due(now_ns) && old(self)@.stale(
                    (#[trigger] r@[i]).0@,
                    r@[i].1@,
                    now_ns,
                ),
            forall|p: Seq<char>, s: Seq<char>|
                old(self)@.due(now_ns) && #[trigger] old(self)@.stale(p, s, now_ns)
                    ==> exists|i: int|
                    0 <= i < r@.len() && (#[trigger] r@[i]).0@ == p && r@[i].1@ == s,
    {
        let ghost before = self@;
        let mut gone: Vec<(String, String)> = Vec::new();
        if let Some(last) = self.last_eviction {
            if now_ns.saturating_sub(last) < self.window_ns {
                return gone;
            }
        }
        self.last_eviction = Some(now_ns);
        let keys = self.requests.key_list();
        let ghost texts = keys@.map_values(|s: String| s@);
        proof {
            self.requests.lemma_keys();
            assert(before.requests.dom() =~= self.requests@.dom());
        }
        let n: usize = keys.len();
        let mut i: usize = 0;
        while i < n
            invariant
                n == keys@.len(),
                i <= n,
                texts == keys@.map_values(|s: String| s@),
                texts.no_duplicates(),
                texts.to_set() == before.requests.dom(),
                before == old(self)@,
                before.due(now_ns),
                self.inv(),
                self@.last_eviction == Some(now_ns),
                self@.window_ns == before.window_ns,
                self.window_ns == before.window_ns,
                self@.requests.dom() == before.requests.dom(),
                forall|j: int|
                    0 <= j < i ==> self@.requests[#[trigger] texts[j]] == before.live(
                        before.requests[texts[j]],
                        now_ns,
                    ),
                forall|j: int|
                    i <= j < n ==> self@.requests[#[trigger] texts[j]] == before.requests[texts[j]],
                forall|k: int|
                    0 <= k < gone@.len() ==> before.stale(
                        (#[trigger] gone@[k]).0@,
                        gone@[k].1@,
                        now_ns,
                    ),
                forall|j: int, s: Seq<char>|
                    #![trigger before.stale(texts[j], s, now_ns)]
                    0 <= j < i && before.stale(texts[j], s, now_ns) ==> exists|k: int|
                        0 <= k < gone@.len() && (#[trigger] gone@[k]).0@ == texts[j] && gone@[k].1@
                            == s,
            decreases n - i,
        {
            let p = keys[i].as_str();
            let ghost kt = texts[i as int];
            let ghost s0 = self@;
            let ghost g0 = gone@;
            assert(p@ == kt);
            assert(texts.to_set().contains(kt));
            match self.requests.remove(p) {
                Some(b) => {
                    let mut bucket = b;
                    let ghost b0 = bucket@;
                    assert(b0 == before.requests[kt]);
                    evict_bucket(&mut bucket, p, self.window_ns, now_ns, &mut gone);
                    let ghost b1 = bucket@;
                    assert(b1 =~= before.live(b0, now_ns));
                    self.requests.insert(p, bucket);
                    assert(self@.requests =~= s0.requests.insert(kt, b1));
                    proof {
                        assert forall|k: int| 0 <= k < gone@.len() implies before.stale(
                            (#[trigger] gone@[k]).0@,
                            gone@[k].1@,
                            now_ns,
                        ) by {
                            if k < g0.len() {
                                assert(gone@[k] == g0[k]);
                            }
                        }
                        assert forall|j: int, s: Seq<char>|
                            #![trigger before.stale(texts[j], s, now_ns)]
                            0 <= j < i + 1 && before.stale(
                                texts[j],
                                s,
                                now_ns,
                            ) implies exists|k: int|
                            0 <= k < gone@.len() && (#[trigger] gone@[k]).0@ == texts[j]
                                && gone@[k].1@ == s by {
                            if j < i {
                                let k = choose|k: int|
                                    0 <= k < g0.len() && (#[trigger] g0[k]).0@ == texts[j]
                                        && g0[k].1@ == s;
                                assert(gone@[k] == g0[k]);
                            } else {
                                assert(b0.dom().contains(s) && now_ns - b0[s] > before.window_ns);
                                let k = choose|k: int|
                                    g0.len() <= k < gone@.len() && (#[trigger] gone@[k]).1@ == s;
                                assert(gone@[k].0@ == kt);
                            }
                        }
                    }
                },
                None => {},
            }
            proof {
                assert(self@.requests.dom() =~= before.requests.dom());
                assert forall|j: int| 0 <= j < n && j != i implies self@.requests[#[trigger] texts[j]]
                    == s0.requests[texts[j]] by {
                    assert(texts[j] != texts[i as int]);
                }
            }
            i = i + 1;
        }
        proof {
            let after = before.evicted(now_ns);
            assert forall|p: Seq<char>| #[trigger] self@.requests.dom().contains(p) implies self@.requests[p]
                == after.requests[p] by {
                assert(texts.to_set().contains(p));
                let j = choose|j: int| 0 <= j < texts.len() && texts[j] == p;
                assert(self@.requests[texts[j]] == before.live(before.requests[texts[j]], now_ns));
            }
            assert(self@.requests =~= after.requests);
            assert forall|p: Seq<char>, s: Seq<char>| #[trigger] before.stale(
                p,
                s,
                now_ns,
            ) implies exists|k: int|
                0 <= k < gone@.len() && (#[trigger] gone@[k]).0@ == p && gone@[k].1@ == s by {
                assert(texts.to_set().contains(p));
                let j = choose|j: int| 0 <= j < texts.len() && texts[j] == p;
                assert(before.stale(texts[j], s, now_ns));
            }
        }
        gone
    }
}

/// Forgetting old requests does not change among how many a peer's keys are shared.
pub proof fn eviction_keeps_the_active(a: ActivityView, peer: Seq<char>, now_ns: u64)
    ensures
        a.evicted(now_ns).active(peer, now_ns) == a.active(peer, now_ns),
{
    assert(a.evicted(now_ns).active(peer, now_ns) =~= a.active(peer, now_ns));
}

/// Who asks for keys counts, from that moment on for a window.
pub proof fn who_asks_counts(a: ActivityView, peer: Seq<char>, sae: Seq<char>, at_ns: u64, now_ns: u64)
    requires
        at_ns <= now_ns <= at_ns + a.window_ns,
    ensures
        a.registered(peer, sae, at_ns).active(peer, now_ns).contains(sae),
{
}

/// A peer's keys are shared among those whose last request is no older than the
/// window, and nobody else.
pub proof fn the_active_asked_within_the_window(
    a: ActivityView,
    peer: Seq<char>,
    sae: Seq<char>,
    now_ns: u64,
)
    ensures
        a.active(peer, now_ns).contains(sae) <==> a.requests.dom().contains(peer)
            && a.requests[peer].dom().contains(sae) && now_ns <= a.requests[peer][sae] + a.window_ns,
{
}

/// A request counts for its entity and its peer alone, and makes a later one of the
/// time of the earlier.
pub proof fn requests_count_apart(
    a: ActivityView,
    peer: Seq<char>,
    sae: Seq<char>,
    at_ns: u64,
    other_peer: Seq<char>,
    other: Seq<char>,
    now_ns: u64,
)
    requires
        other_peer != peer || other != sae,
    ensures
        a.registered(peer, sae, at_ns).active(other_peer, now_ns).contains(other) <==> a.active(
            other_peer,
            now_ns,
        ).contains(other),
        a.registered(peer, sae, at_ns).of(peer).contains_pair(sae, at_ns),
        a.registered(peer, sae, at_ns).last_eviction == a.last_eviction,
{
}

/// Old requests are forgotten once in a window at most, exactly those that are older
/// than it.
pub proof fn old_requests_are_forgotten_once_in_a_window(
    a: ActivityView,
    now_ns: u64,
    later_ns: u64,
    peer: Seq<char>,
    sae: Seq<char>,
    at_ns: u64,
)
    requires
        now_ns <= later_ns,
    ensures
        a.evicted(now_ns).due(later_ns) <==> later_ns >= now_ns + a.window_ns,
        a.last_eviction is None ==> a.due(now_ns),
        a.evicted(now_ns).of(peer).contains_pair(sae, at_ns) <==> a.of(peer).contains_pair(sae, at_ns)
            && now_ns <= at_ns + a.window_ns,
{
}

} // verus!
