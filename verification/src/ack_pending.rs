//! Keys that were sent to a peer and are not acknowledged yet.
use crate::crypto::primitives::wipe;
use crate::ids::KeyId;
use crate::security::KeyGrade;
use crate::table::Table;
use vstd::prelude::*;
use vstd::string::*;

verus! {

/// A key that waits for its acknowledgement.
pub struct AckPendingEntry {
    pub bytes: Vec<u8>,
    /// When it is given up, in nanoseconds.
    pub deadline_ns: u64,
    pub grade: KeyGrade,
}

#[verifier::ext_equal]
pub struct EntryView {
    pub bytes: Seq<u8>,
    pub deadline_ns: u64,
    pub grade: KeyGrade,
}

impl View for AckPendingEntry {
    type V = EntryView;

    open spec fn view(&self) -> EntryView {
        EntryView { bytes: self.bytes@, deadline_ns: self.deadline_ns, grade: self.grade }
    }
}

impl AckPendingEntry {
    pub fn new(bytes: Vec<u8>, deadline_ns: u64, grade: KeyGrade) -> (r: Self)
        ensures
            r@ == (EntryView { bytes: bytes@, deadline_ns, grade }),
    {
        AckPendingEntry { bytes, deadline_ns, grade }
    }

    /// Gives the key up; its bytes are overwritten.
    pub(crate) fn discard(self) {
        let mut bytes = self.bytes;
        wipe(&mut bytes);
    }

    pub fn is_expired(&self, now_ns: u64) -> (r: bool)
        ensures
            r == self@.expired(now_ns),
    {
        now_ns >= self.deadline_ns
    }
}

impl EntryView {
    pub open spec fn expired(self, now_ns: u64) -> bool {
        now_ns >= self.deadline_ns
    }
}

/// What came of an acknowledgement.
pub enum TakeOutcome {
    Hit(AckPendingEntry),
    /// Nothing is pending for a peer of this name.
    UnknownPeer,
    /// The key is not pending for this peer.
    UnknownKey,
}

pub open spec fn bucket_view(m: Map<Seq<char>, AckPendingEntry>) -> Map<Seq<char>, EntryView> {
    Map::new(|k: Seq<char>| m.dom().contains(k), |k: Seq<char>| m[k]@)
}

/// Keys of a bucket that are given up at `now_ns`.
pub open spec fn expired_keys(b: Map<Seq<char>, EntryView>, now_ns: u64) -> Set<Seq<char>> {
    b.dom().filter(|k: Seq<char>| b[k].expired(now_ns))
}

/// What is left of a bucket at `now_ns`.
pub open spec fn live(b: Map<Seq<char>, EntryView>, now_ns: u64) -> Map<Seq<char>, EntryView> {
    b.remove_keys(expired_keys(b, now_ns))
}

pub type PendingView = Map<Seq<char>, Map<Seq<char>, EntryView>>;

/// What is pending for a peer.
pub open spec fn bucket_of(m: PendingView, peer: Seq<char>) -> Map<Seq<char>, EntryView> {
    if m.dom().contains(peer) {
        m[peer]
    } else {
        Map::empty()
    }
}

/// The store with `bucket` for `peer`; an empty bucket is not kept.
pub open spec fn with_bucket(
    m: PendingView,
    peer: Seq<char>,
    bucket: Map<Seq<char>, EntryView>,
) -> PendingView {
    if bucket.dom() == Set::<Seq<char>>::empty() {
        m.remove(peer)
    } else {
        m.insert(peer, bucket)
    }
}

/// The store without what is given up at `now_ns`.
pub open spec fn all_live(m: PendingView, now_ns: u64) -> PendingView {
    Map::new(
        |p: Seq<char>| m.dom().contains(p) && live(m[p], now_ns).dom() != Set::<Seq<char>>::empty(),
        |p: Seq<char>| live(m[p], now_ns),
    )
}

/// Whether `list` names each peer of which something is given up, once, with how
/// many keys that is.
pub open spec fn tallied(m: PendingView, now_ns: u64, list: Seq<(Seq<char>, nat)>) -> bool {
    &&& forall|i: int, j: int| 0 <= i < j < list.len() ==> #[trigger] list[i].0 != #[trigger] list[j].0
    &&& forall|i: int|
        #![trigger list[i]]
        0 <= i < list.len() ==> m.dom().contains(list[i].0) && list[i].1 > 0 && list[i].1
            == expired_keys(m[list[i].0], now_ns).len()
    &&& forall|p: Seq<char>| #[trigger]
        m.dom().contains(p) && expired_keys(m[p], now_ns).len() > 0 ==> exists|i: int|
            0 <= i < list.len() && #[trigger] list[i].0 == p
}

/// All counts of a tally together.
pub open spec fn total(list: Seq<(Seq<char>, nat)>) -> nat
    decreases list.len(),
{
    if list.len() == 0 {
        0
    } else {
        total(list.drop_last()) + list.last().1
    }
}

pub open spec fn tally_view(list: Seq<(String, usize)>) -> Seq<(Seq<char>, nat)> {
    list.map_values(|e: (String, usize)| (e.0@, e.1 as nat))
}

fn discard_bucket(bucket: Table<AckPendingEntry>)
    requires
        bucket.inv(),
{
    let mut bucket = bucket;
    let keys = bucket.key_list();
    let n: usize = keys.len();
    let mut i: usize = 0;
    while i < n
        invariant
            n == keys@.len(),
            i <= n,
            bucket.inv(),
        decreases n - i,
    {
        if let Some(e) = bucket.remove(keys[i].as_str()) {
            e.discard();
        }
        i = i + 1;
    }
}

/// Takes what is given up out of a bucket and says how much that was.
fn reap_bucket(bucket: &mut Table<AckPendingEntry>, now_ns: u64) -> (n: usize)
    requires
        old(bucket).inv(),
    ensures
        final(bucket).inv(),
        bucket_view(final(bucket)@) == live(bucket_view(old(bucket)@), now_ns),
        n == expired_keys(bucket_view(old(bucket)@), now_ns).len(),
{
    let ghost before = bucket_view(bucket@);
    let ghost gone = expired_keys(before, now_ns);
    let keys = bucket.key_list();
    let ghost texts = keys@.map_values(|s: String| s@);
    proof {
        bucket.lemma_keys();
    }
    let mut n: usize = 0;
    let mut i: usize = 0;
    let ghost mut removed: Set<Seq<char>> = Set::empty();
    assert(before.remove_keys(removed) =~= before);
    while i < keys.len()
        invariant
            texts == keys@.map_values(|s: String| s@),
            texts.no_duplicates(),
            texts.to_set() == before.dom(),
            gone == expired_keys(before, now_ns),
            bucket.inv(),
            i <= keys@.len(),
            n <= i,
            removed.finite(),
            n == removed.len(),
            forall|k: Seq<char>|
                #[trigger] removed.contains(k) <==> gone.contains(k) && texts.take(
                    i as int,
                ).contains(k),
            bucket_view(bucket@) == before.remove_keys(removed),
        decreases keys@.len() - i,
    {
        let k = keys[i].as_str();
        let ghost kt = texts[i as int];
        assert(k@ == kt);
        assert(texts.to_set().contains(kt));
        assert(before.dom().contains(kt));
        assert(!removed.contains(kt)) by {
            if texts.take(i as int).contains(kt) {
                let j = choose|j: int| 0 <= j < i && texts.take(i as int)[j] == kt;
                assert(texts[j] == texts[i as int]);
            }
        }
        assert(bucket_view(bucket@).dom().contains(kt));
        let expired: bool = match bucket.get(k) {
            Some(e) => e.is_expired(now_ns),
            None => false,
        };
        let ghost b0 = bucket_view(bucket@);
        assert(b0[kt] == before[kt]);
        assert(expired == gone.contains(kt));
        assert(texts.take(i + 1) =~= texts.take(i as int).push(kt));
        if expired {
            if let Some(e) = bucket.remove(k) {
                e.discard();
            }
            n = n + 1;
            proof {
                assert(bucket_view(bucket@) =~= b0.remove(kt));
                let removed1 = removed.insert(kt);
                assert(before.remove_keys(removed1) =~= b0.remove(kt));
                assert forall|q: Seq<char>| #[trigger] removed1.contains(q) <==> gone.contains(q)
                    && texts.take(i + 1).contains(q) by {
                    if texts.take(i as int).contains(q) {
                        let j = choose|j: int| 0 <= j < i && texts.take(i as int)[j] == q;
                        assert(texts.take(i + 1)[j] == q);
                    }
                    if q == kt {
                        assert(texts.take(i + 1)[i as int] == kt);
                    }
                }
                removed = removed1;
            }
        } else {
            proof {
                assert forall|q: Seq<char>| #[trigger] removed.contains(q) <==> gone.contains(q)
                    && texts.take(i + 1).contains(q) by {
                    if texts.take(i as int).contains(q) {
                        let j = choose|j: int| 0 <= j < i && texts.take(i as int)[j] == q;
                        assert(texts.take(i + 1)[j] == q);
                    }
                }
            }
        }
        i = i + 1;
    }
    proof {
        assert(texts.take(i as int) =~= texts);
        assert forall|k: Seq<char>| #[trigger] removed.contains(k) <==> gone.contains(k) by {
            if gone.contains(k) {
                assert(texts.to_set().contains(k));
            }
        }
        assert(removed =~= gone);
    }
    n
}

/// The keys that wait for an acknowledgement, by peer.
pub struct AckPendingStore {
    inner: Table<Table<AckPendingEntry>>,
}

impl View for AckPendingStore {
    type V = PendingView;

    closed spec fn view(&self) -> PendingView {
        Map::new(
            |p: Seq<char>| self.inner@.dom().contains(p),
            |p: Seq<char>| bucket_view(self.inner@[p]@),
        )
    }
}

impl AckPendingStore {
    /// No bucket is empty.
    pub closed spec fn inv(self) -> bool {
        &&& self.inner.inv()
        &&& forall|p: Seq<char>| #[trigger]
            self.inner@.dom().contains(p) ==> self.inner@[p].inv() && self.inner@[p]@.dom() != Set::<
                Seq<char>,
            >::empty()
    }

    pub fn new() -> (r: Self)
        ensures
            r.inv(),
            r@ == Map::<Seq<char>, Map<Seq<char>, EntryView>>::empty(),
    {
        let r = AckPendingStore { inner: Table::new() };
        assert(r@ =~= Map::<Seq<char>, Map<Seq<char>, EntryView>>::empty());
        r
    }

    /// Every peer in the store has something pending.
    pub proof fn no_bucket_is_empty(self, peer: Seq<char>)
        requires
            self.inv(),
            self@.dom().contains(peer),
        ensures
            exists|k: Seq<char>| self@[peer].dom().contains(k),
    {
        let b = self.inner@[peer]@;
        if forall|k: Seq<char>| !b.dom().contains(k) {
            assert(b.dom() =~= Set::<Seq<char>>::empty());
        }
        let k = choose|k: Seq<char>| b.dom().contains(k);
        assert(self@[peer].dom().contains(k));
    }

    /// There are finitely many peers in the store, and finitely many keys of each.
    pub proof fn buckets_are_finite(self, peer: Seq<char>)
        requires
            self.inv(),
        ensures
            self@.dom().finite(),
            bucket_of(self@, peer).dom().finite(),
    {
        self.inner.lemma_keys();
        assert(self@.dom() =~= self.inner@.dom());
        if self@.dom().contains(peer) {
            self.inner@[peer].lemma_keys();
            assert(self@[peer].dom() =~= self.inner@[peer]@.dom());
        }
    }

    pub fn insert(&mut self, peer: &str, key_id: &KeyId, entry: AckPendingEntry)
        requires
            old(self).inv(),
        ensures
            final(self).inv(),
            final(self)@ == old(self)@.insert(
                peer@,
                bucket_of(old(self)@, peer@).insert(key_id@, entry@),
            ),
    {
        let ghost before = self@;
        let mut bucket = match self.inner.remove(peer) {
            Some(b) => b,
            None => Table::new(),
        };
        let ghost b0 = bucket@;
        assert(bucket_view(b0) =~= bucket_of(before, peer@));
        bucket.insert(key_id.as_str(), entry);
        assert(bucket_view(bucket@) =~= bucket_view(b0).insert(key_id@, entry@));
        assert(bucket@.dom().contains(key_id@));
        self.inner.insert(peer, bucket);
        assert(self@ =~= before.insert(
            peer@,
            bucket_of(before, peer@).insert(key_id@, entry@),
        ));
    }

    /// Takes a key out, as an acknowledgement of `peer` asks, and says what was found.
    pub fn take_diagnosed(&mut self, peer: &str, key_id: &KeyId) -> (r: TakeOutcome)
        requires
            old(self).inv(),
        ensures
            final(self).inv(),
            match r {
                TakeOutcome::UnknownPeer => !old(self)@.dom().contains(peer@) && final(self)@ == old(
                    self,
                )@,
                TakeOutcome::UnknownKey => {
                    &&& old(self)@.dom().contains(peer@)
                    &&& !old(self)@[peer@].dom().contains(key_id@)
                    &&& final(self)@ == old(self)@
                },
                TakeOutcome::Hit(e) => {
                    &&& old(self)@.dom().contains(peer@)
                    &&& old(self)@[peer@].contains_pair(key_id@, e@)
                    &&& final(self)@ == with_bucket(
                        old(self)@,
                        peer@,
                        old(self)@[peer@].remove(key_id@),
                    )
                },
            },
    {
        let ghost before = self@;
        let mut bucket = match self.inner.remove(peer) {
            Some(b) => b,
            None => {
                assert(self@ =~= before);
                return TakeOutcome::UnknownPeer;
            },
        };
        let ghost b0 = bucket@;
        let entry = bucket.remove(key_id.as_str());
        assert(bucket_view(bucket@) =~= before[peer@].remove(key_id@));
        let n: usize = bucket.len();
        proof {
            if n == 0 {
                assert(bucket@.dom() =~= Set::<Seq<char>>::empty());
            }
            assert(bucket_view(bucket@).dom() =~= bucket@.dom());
        }
        if n > 0 {
            self.inner.insert(peer, bucket);
        }
        assert(self@ =~= with_bucket(before, peer@, before[peer@].remove(key_id@)));
        match entry {
            Some(e) => TakeOutcome::Hit(e),
            None => {
                assert(before[peer@].remove(key_id@) =~= before[peer@]);
                assert(bucket@ =~= b0);
                assert(self@ =~= before);
                TakeOutcome::UnknownKey
            },
        }
    }

    pub fn take(&mut self, peer: &str, key_id: &KeyId) -> (r: Option<AckPendingEntry>)
        requires
            old(self).inv(),
        ensures
            final(self).inv(),
            match r {
                Some(e) => {
                    &&& old(self)@.dom().contains(peer@)
                    &&& old(self)@[peer@].contains_pair(key_id@, e@)
                    &&& final(self)@ == with_bucket(
                        old(self)@,
                        peer@,
                        old(self)@[peer@].remove(key_id@),
                    )
                },
                None => {
                    &&& !bucket_of(old(self)@, peer@).dom().contains(key_id@)
                    &&& final(self)@ == old(self)@
                },
            },
    {
        match self.take_diagnosed(peer, key_id) {
            TakeOutcome::Hit(e) => Some(e),
            _ => None,
        }
    }

    /// The peers for which something is pending, each once.
    pub fn peers(&self) -> (r: Vec<String>)
        requires
            self.inv(),
        ensures
            r@.map_values(|s: String| s@).no_duplicates(),
            r@.map_values(|s: String| s@).to_set() == self@.dom(),
    {
        proof {
            self.inner.lemma_keys();
            assert(self@.dom() =~= self.inner@.dom());
        }
        self.inner.key_list()
    }

    /// Gives up everything that is pending for a peer and says how much that was.
    pub fn drop_peer(&mut self, peer: &str) -> (r: usize)
        requires
            old(self).inv(),
        ensures
            final(self).inv(),
            final(self)@ == old(self)@.remove(peer@),
            r == bucket_of(old(self)@, peer@).dom().len(),
    {
        let ghost before = self@;
        let gone = self.inner.remove(peer);
        assert(self@ =~= before.remove(peer@));
        match gone {
            Some(b) => {
                assert(before[peer@].dom() =~= b@.dom());
                let dropped: usize = b.len();
                discard_bucket(b);
                dropped
            },
            None => 0,
        }
    }

    pub fn pending_count(&self, peer: &str) -> (r: usize)
        requires
            self.inv(),
        ensures
            r == bucket_of(self@, peer@).dom().len(),
    {
        match self.inner.get(peer) {
            Some(b) => {
                assert(self@[peer@].dom() =~= b@.dom());
                b.len()
            },
            None => 0,
        }
    }

    /// How much is pending for each peer.
    pub fn snapshot(&self) -> (r: Vec<(String, usize)>)
        requires
            self.inv(),
        ensures
            tally_view(r@).map_values(|e: (Seq<char>, nat)| e.0).no_duplicates(),
            tally_view(r@).map_values(|e: (Seq<char>, nat)| e.0).to_set() == self@.dom(),
            forall|i: int|
                0 <= i < r@.len() ==> (#[trigger] tally_view(r@)[i]).1 == self@[tally_view(
                    r@,
                )[i].0].dom().len(),
    {
        let n: usize = self.inner.len();
        proof {
            self.inner.lemma_keys();
            assert(self@.dom() =~= self.inner@.dom());
        }
        let ghost keys = self.inner.keys();
        let mut out: Vec<(String, usize)> = Vec::new();
        let mut i: usize = 0;
        while i < n
            invariant
                self.inv(),
                self.inner.inv(),
                keys == self.inner.keys(),
                n == keys.len(),
                i <= n,
                out@.len() == i,
                forall|j: int| 0 <= j < i ==> (#[trigger] out@[j]).0@ == keys[j],
                forall|j: int| 0 <= j < i ==> (#[trigger] out@[j]).1 == self@[keys[j]].dom().len(),
            decreases n - i,
        {
            let (p, b) = self.inner.entry(i);
            assert(self@[p@].dom() =~= b@.dom());
            out.push((p.to_owned(), b.len()));
            i = i + 1;
        }
        assert(tally_view(out@).map_values(|e: (Seq<char>, nat)| e.0) =~= keys);
        out
    }

    /// Gives up what has expired and says, for each peer of which something did,
    /// how much that was.
    pub fn reap_expired_by_peer(&mut self, now_ns: u64) -> (r: Vec<(String, usize)>)
        requires
            old(self).inv(),
        ensures
            final(self).inv(),
            final(self)@ == all_live(old(self)@, now_ns),
            tallied(old(self)@, now_ns, tally_view(r@)),
    {
        let ghost before = self@;
        let keys = self.inner.key_list();
        let ghost texts = keys@.map_values(|s: String| s@);
        proof {
            self.inner.lemma_keys();
            assert(self.inner@.dom() =~= before.dom());
        }
        let mut out: Vec<(String, usize)> = Vec::new();
        let mut i: usize = 0;
        while i < keys.len()
            invariant
                texts == keys@.map_values(|s: String| s@),
                texts.no_duplicates(),
                texts.to_set() == before.dom(),
                i <= keys@.len(),
                self.inv(),
                forall|p: Seq<char>|
                    !texts.take(i as int).contains(p) ==> (#[trigger] self@.dom().contains(p)
                        == before.dom().contains(p) && (before.dom().contains(p) ==> self@[p]
                        == before[p])),
                forall|p: Seq<char>|
                    texts.take(i as int).contains(p) ==> #[trigger] self@.dom().contains(p)
                        == all_live(before, now_ns).dom().contains(p) && (self@.dom().contains(p)
                        ==> self@[p] == live(before[p], now_ns)),
                forall|a: int, b: int|
                    0 <= a < b < out@.len() ==> (#[trigger] out@[a]).0@ != (#[trigger] out@[b]).0@,
                forall|a: int|
                    0 <= a < out@.len() ==> texts.take(i as int).contains((#[trigger] out@[a]).0@)
                        && before.dom().contains(out@[a].0@) && out@[a].1 > 0 && out@[a].1
                        == expired_keys(before[out@[a].0@], now_ns).len(),
                forall|p: Seq<char>|
                    #[trigger] texts.take(i as int).contains(p) && expired_keys(
                        before[p],
                        now_ns,
                    ).len() > 0 ==> exists|a: int|
                        0 <= a < out@.len() && (#[trigger] out@[a]).0@ == p,
            decreases keys@.len() - i,
        {
            let k = keys[i].as_str();
            let ghost kt = texts[i as int];
            let ghost s0 = self@;
            let ghost out0 = out@;
            proof {
                assert(texts.to_set().contains(kt));
                if texts.take(i as int).contains(kt) {
                    let j = choose|j: int| 0 <= j < i && texts.take(i as int)[j] == kt;
                    assert(texts[j] == texts[i as int]);
                }
                assert(self@.dom().contains(kt));
                assert(texts.take(i + 1) =~= texts.take(i as int).push(kt));
            }
            let bucket = self.inner.remove(k);
            let mut bucket = match bucket {
                Some(b) => b,
                None => Table::new(),
            };
            assert(bucket_view(bucket@) =~= before[kt]);
            let n: usize = reap_bucket(&mut bucket, now_ns);
            let left: usize = bucket.len();
            proof {
                if left == 0 {
                    assert(bucket@.dom() =~= Set::<Seq<char>>::empty());
                }
                assert(bucket_view(bucket@).dom() =~= bucket@.dom());
            }
            if n > 0 {
                out.push((keys[i].clone(), n));
            }
            if left > 0 {
                self.inner.insert(k, bucket);
            }
            proof {
                let after = self@;
                assert forall|p: Seq<char>| p != kt implies #[trigger] after.dom().contains(p)
                    == s0.dom().contains(p) && (s0.dom().contains(p) ==> after[p] == s0[p]) by {}
                assert forall|p: Seq<char>| !texts.take(i + 1).contains(p) implies (
                #[trigger] after.dom().contains(p) == before.dom().contains(p) && (
                before.dom().contains(p) ==> after[p] == before[p])) by {
                    if p == kt {
                        assert(texts.take(i + 1)[i as int] == kt);
                    }
                    if texts.take(i as int).contains(p) {
                        let j = choose|j: int| 0 <= j < i && texts.take(i as int)[j] == p;
                        assert(texts.take(i + 1)[j] == p);
                    }
                }
                assert forall|p: Seq<char>| texts.take(i + 1).contains(
                    p,
                ) implies #[trigger] after.dom().contains(p) == all_live(
                    before,
                    now_ns,
                ).dom().contains(p) && (after.dom().contains(p) ==> after[p] == live(
                    before[p],
                    now_ns,
                )) by {
                    if p != kt {
                        let j = choose|j: int| 0 <= j < i + 1 && #[trigger] texts.take(i + 1)[j] == p;
                        assert(texts.take(i as int)[j] == p);
                    } else {
                        if left > 0 {
                            assert(after[p] =~= live(before[p], now_ns));
                        }
                    }
                }
                assert forall|a: int| 0 <= a < out@.len() implies texts.take(i + 1).contains(
                    (#[trigger] out@[a]).0@,
                ) && before.dom().contains(out@[a].0@) && out@[a].1 > 0 && out@[a].1
                    == expired_keys(before[out@[a].0@], now_ns).len() by {
                    if a < out0.len() {
                        assert(out@[a] == out0[a]);
                        let j = choose|j: int|
                            0 <= j < i && texts.take(i as int)[j] == out0[a].0@;
                        assert(texts.take(i + 1)[j] == out0[a].0@);
                    } else {
                        assert(texts.take(i + 1)[i as int] == kt);
                    }
                }
                assert forall|a: int, b: int| 0 <= a < b < out@.len() implies (
                #[trigger] out@[a]).0@ != (#[trigger] out@[b]).0@ by {
                    if b == out0.len() {
                        assert(out@[a] == out0[a]);
                        assert(texts.take(i as int).contains(out0[a].0@));
                    }
                }
                assert forall|p: Seq<char>| #[trigger] texts.take(i + 1).contains(p)
                    && expired_keys(before[p], now_ns).len() > 0 implies exists|a: int|
                    0 <= a < out@.len() && (#[trigger] out@[a]).0@ == p by {
                    if p != kt {
                        let j = choose|j: int| 0 <= j < i + 1 && #[trigger] texts.take(i + 1)[j] == p;
                        assert(texts.take(i as int)[j] == p);
                        assert(texts.take(i as int).contains(p));
                        let a = choose|a: int| 0 <= a < out0.len() && (#[trigger] out0[a]).0@ == p;
                        assert(out@[a].0@ == p);
                    } else {
                        assert(out@[out0.len() as int].0@ == p);
                    }
                }
            }
            i = i + 1;
        }
        proof {
            assert(texts.take(i as int) =~= texts);
            let list = tally_view(out@);
            assert forall|p: Seq<char>| #[trigger] self@.dom().contains(p) == all_live(
                before,
                now_ns,
            ).dom().contains(p) && (self@.dom().contains(p) ==> self@[p] == all_live(
                before,
                now_ns,
            )[p]) by {
                if before.dom().contains(p) {
                    assert(texts.to_set().contains(p));
                } else {
                    if texts.contains(p) {
                        assert(texts.to_set().contains(p));
                    }
                }
            }
            assert(self@ =~= all_live(before, now_ns));
            assert forall|p: Seq<char>| #[trigger] before.dom().contains(p) && expired_keys(
                before[p],
                now_ns,
            ).len() > 0 implies exists|a: int| 0 <= a < list.len() && #[trigger] list[a].0
                == p by {
                assert(texts.to_set().contains(p));
                let a = choose|a: int| 0 <= a < out@.len() && (#[trigger] out@[a]).0@ == p;
                assert(list[a].0 == p);
            }
            assert forall|a: int| #![trigger list[a]] 0 <= a < list.len() implies before.dom().contains(
                list[a].0,
            ) && list[a].1 > 0 && list[a].1 == expired_keys(before[list[a].0], now_ns).len() by {
                assert(list[a] == (out@[a].0@, out@[a].1 as nat));
            }
        }
        out
    }

    /// Gives up what has expired and says how much that was, or the greatest
    /// number there is.
    pub fn reap_expired(&mut self, now_ns: u64) -> (r: usize)
        requires
            old(self).inv(),
        ensures
            final(self).inv(),
            final(self)@ == all_live(old(self)@, now_ns),
            exists|list: Seq<(Seq<char>, nat)>| #[trigger]
                tallied(old(self)@, now_ns, list) && r == (if total(list) > usize::MAX {
                    usize::MAX as int
                } else {
                    total(list) as int
                }),
    {
        let list = self.reap_expired_by_peer(now_ns);
        let ghost v = tally_view(list@);
        let mut sum: usize = 0;
        let mut i: usize = 0;
        while i < list.len()
            invariant
                v == tally_view(list@),
                i <= list@.len(),
                sum == (if total(v.take(i as int)) > usize::MAX {
                    usize::MAX as int
                } else {
                    total(v.take(i as int)) as int
                }),
            decreases list@.len() - i,
        {
            assert(v.take(i + 1).drop_last() =~= v.take(i as int));
            assert(v.take(i + 1).last() == v[i as int]);
            sum = sum.saturating_add(list[i].1);
            i = i + 1;
        }
        assert(v.take(i as int) =~= v);
        sum
    }
}

/// After a sweep nothing that has expired is left.
pub proof fn sweep_leaves_nothing_expired(m: PendingView, now_ns: u64, peer: Seq<char>, key: Seq<char>)
    requires
        all_live(m, now_ns).dom().contains(peer),
        all_live(m, now_ns)[peer].dom().contains(key),
    ensures
        !all_live(m, now_ns)[peer][key].expired(now_ns),
        m.dom().contains(peer) && m[peer].contains_pair(key, all_live(m, now_ns)[peer][key]),
{
}

/// A key is acknowledged once: what was taken is no longer there.
pub proof fn taken_key_is_gone(m: PendingView, peer: Seq<char>, key: Seq<char>)
    requires
        m.dom().contains(peer),
        m[peer].dom().contains(key),
    ensures
        !bucket_of(with_bucket(m, peer, m[peer].remove(key)), peer).dom().contains(key),
{
}

/// A sweep gives up exactly what is out of time: a key that waits before it still
/// waits after it, as it was, if and only if its deadline is to come.
pub proof fn sweep_gives_up_only_what_is_out_of_time(
    m: PendingView,
    now_ns: u64,
    peer: Seq<char>,
    key: Seq<char>,
    entry: EntryView,
)
    ensures
        bucket_of(all_live(m, now_ns), peer).contains_pair(key, entry) <==> bucket_of(
            m,
            peer,
        ).contains_pair(key, entry) && now_ns < entry.deadline_ns,
{
    let b = bucket_of(m, peer);
    if b.contains_pair(key, entry) && now_ns < entry.deadline_ns {
        assert(live(b, now_ns).dom().contains(key));
        assert(all_live(m, now_ns).dom().contains(peer));
    }
}

/// Taking one key leaves every other that waits, of that peer and of the others.
pub proof fn other_keys_still_wait(
    m: PendingView,
    peer: Seq<char>,
    key: Seq<char>,
    other_peer: Seq<char>,
    other: Seq<char>,
    entry: EntryView,
)
    requires
        m.dom().contains(peer),
        other_peer != peer || other != key,
    ensures
        bucket_of(with_bucket(m, peer, m[peer].remove(key)), other_peer).contains_pair(other, entry)
            <==> bucket_of(m, other_peer).contains_pair(other, entry),
{
    let left = m[peer].remove(key);
    if other_peer == peer && m[peer].dom().contains(other) {
        assert(left.dom().contains(other));
    }
}

/// What waits for a peer is what was put in for it, and nothing waits for one that
/// nothing was put in for.
pub proof fn keys_wait_for_their_peer(m: PendingView, peer: Seq<char>, key: Seq<char>, entry: EntryView)
    ensures
        bucket_of(m, peer).contains_pair(key, entry) <==> m.dom().contains(peer)
            && m[peer].contains_pair(key, entry),
{
}

} // verus!
