//! Transport keys that are shared with the peers, first in first out.
//!
//! The two ends of a link hold the same keys: what one end has to encrypt with,
//! the other has to decrypt with. A key leaves its buffer when it is used.
use crate::crypto::primitives::wipe;
use crate::ids::KeyId;
use crate::security::{first_available, GradeResolution, KeyGrade};
use crate::table::Table;
use crate::text::text_eq;
use vstd::prelude::*;
use vstd::string::*;

verus! {

/// A key that both ends of a link hold.
#[derive(Debug)]
pub struct TransportKey {
    pub id: KeyId,
    pub bytes: Vec<u8>,
}

#[verifier::ext_equal]
pub struct KeyView {
    pub id: Seq<char>,
    pub bytes: Seq<u8>,
}

impl View for TransportKey {
    type V = KeyView;

    open spec fn view(&self) -> KeyView {
        KeyView { id: self.id@, bytes: self.bytes@ }
    }
}

impl TransportKey {
    pub fn new(id: KeyId, bytes: Vec<u8>) -> (r: Self)
        ensures
            r@ == (KeyView { id: id@, bytes: bytes@ }),
    {
        TransportKey { id, bytes }
    }

    /// Gives the key up; its bytes are overwritten.
    pub(crate) fn discard(self) {
        let mut bytes = self.bytes;
        wipe(&mut bytes);
    }
}

pub open spec fn key_views(keys: Seq<TransportKey>) -> Seq<KeyView> {
    keys.map_values(|k: TransportKey| k@)
}

/// Where the oldest key of this name is.
pub open spec fn position(keys: Seq<KeyView>, id: Seq<char>) -> Option<int>
    decreases keys.len(),
{
    if keys.len() == 0 {
        None
    } else if keys[0].id == id {
        Some(0)
    } else {
        match position(keys.drop_first(), id) {
            Some(i) => Some(i + 1),
            None => None,
        }
    }
}

pub proof fn lemma_position(keys: Seq<KeyView>, id: Seq<char>)
    ensures
        match position(keys, id) {
            Some(i) => {
                &&& 0 <= i < keys.len()
                &&& keys[i].id == id
                &&& forall|j: int| 0 <= j < i ==> (#[trigger] keys[j]).id != id
            },
            None => forall|j: int| 0 <= j < keys.len() ==> (#[trigger] keys[j]).id != id,
        },
    decreases keys.len(),
{
    if keys.len() > 0 && keys[0].id != id {
        let rest = keys.drop_first();
        lemma_position(rest, id);
        match position(rest, id) {
            Some(i) => {
                assert forall|j: int| 0 <= j < i + 1 implies (#[trigger] keys[j]).id != id by {
                    if j > 0 {
                        assert(rest[j - 1] == keys[j]);
                    }
                }
            },
            None => {
                assert forall|j: int| 0 <= j < keys.len() implies (#[trigger] keys[j]).id != id by {
                    if j > 0 {
                        assert(rest[j - 1] == keys[j]);
                    }
                }
            },
        }
    }
}

/// Keys in the order in which they came.
pub struct KeyBuffer {
    keys: Vec<TransportKey>,
    limit: Option<usize>,
}

#[verifier::ext_equal]
pub struct BufferView {
    pub keys: Seq<KeyView>,
    pub limit: Option<usize>,
}

impl BufferView {
    pub open spec fn empty(limit: Option<usize>) -> BufferView {
        BufferView { keys: Seq::empty(), limit }
    }

    pub open spec fn full(self) -> bool {
        match self.limit {
            Some(n) => self.keys.len() >= n,
            None => false,
        }
    }

    pub open spec fn pushed(self, key: KeyView) -> BufferView {
        BufferView { keys: self.keys.push(key), ..self }
    }

    /// Without its oldest key.
    pub open spec fn popped(self) -> BufferView {
        BufferView { keys: self.keys.drop_first(), ..self }
    }

    pub open spec fn without(self, i: int) -> BufferView {
        BufferView { keys: self.keys.remove(i), ..self }
    }

    pub open spec fn cleared(self) -> BufferView {
        BufferView { keys: Seq::empty(), ..self }
    }
}

impl View for KeyBuffer {
    type V = BufferView;

    closed spec fn view(&self) -> BufferView {
        BufferView { keys: key_views(self.keys@), limit: self.limit }
    }
}

impl KeyBuffer {
    /// An empty buffer; without a limit it takes every key.
    pub fn new(limit: Option<usize>) -> (r: Self)
        ensures
            r@ == BufferView::empty(limit),
    {
        let r = KeyBuffer { keys: Vec::new(), limit };
        assert(r@.keys =~= Seq::<KeyView>::empty());
        r
    }

    pub fn len(&self) -> (r: usize)
        ensures
            r == self@.keys.len(),
    {
        self.keys.len()
    }

    /// Puts a key behind the others, or gives it back if the buffer is full.
    pub fn try_push(&mut self, key: TransportKey) -> (r: Result<(), TransportKey>)
        ensures
            match r {
                Ok(_) => !old(self)@.full() && final(self)@ == old(self)@.pushed(key@),
                Err(k) => old(self)@.full() && k == key && final(self)@ == old(self)@,
            },
    {
        if let Some(n) = self.limit {
            if self.keys.len() >= n {
                return Err(key);
            }
        }
        let ghost before = self@;
        self.keys.push(key);
        assert(self@ =~= before.pushed(key@));
        Ok(())
    }

    /// Takes the oldest key.
    pub fn pop_oldest(&mut self) -> (r: Option<TransportKey>)
        ensures
            match r {
                Some(k) => {
                    &&& old(self)@.keys.len() > 0
                    &&& k@ == old(self)@.keys[0]
                    &&& final(self)@ == old(self)@.popped()
                },
                None => old(self)@.keys.len() == 0 && final(self)@ == old(self)@,
            },
    {
        let ghost before = self@;
        if self.keys.len() == 0 {
            return None;
        }
        let k = self.keys.remove(0);
        assert(self@ =~= before.popped());
        Some(k)
    }

    /// Takes the oldest key of this name.
    pub fn take_by_id(&mut self, id: &KeyId) -> (r: Option<TransportKey>)
        ensures
            match (r, position(old(self)@.keys, id@)) {
                (Some(k), Some(i)) => {
                    &&& 0 <= i < old(self)@.keys.len()
                    &&& k@ == old(self)@.keys[i]
                    &&& k@.id == id@
                    &&& final(self)@ == old(self)@.without(i)
                },
                (None, None) => final(self)@ == old(self)@,
                _ => false,
            },
    {
        let ghost before = self@;
        let n: usize = self.keys.len();
        let mut i: usize = 0;
        proof {
            lemma_position(before.keys, id@);
        }
        while i < n
            invariant
                before == old(self)@,
                self@ == before,
                n == self.keys@.len(),
                i <= n,
                forall|j: int| 0 <= j < i ==> (#[trigger] before.keys[j]).id != id@,
            decreases n - i,
        {
            assert(before.keys[i as int] == self.keys@[i as int]@);
            if text_eq(self.keys[i].id.as_str(), id.as_str()) {
                proof {
                    lemma_position(before.keys, id@);
                    assert(position(before.keys, id@) == Some(i as int));
                }
                let k = self.keys.remove(i);
                assert(self@.keys =~= before.keys.remove(i as int));
                assert(k@ == before.keys[i as int]);
                return Some(k);
            }
            i = i + 1;
        }
        None
    }

    /// Gives every key up and says how many there were.
    pub fn clear(&mut self) -> (r: usize)
        ensures
            r == old(self)@.keys.len(),
            final(self)@ == old(self)@.cleared(),
    {
        let n: usize = self.keys.len();
        let mut keys: Vec<TransportKey> = Vec::new();
        keys.append(&mut self.keys);
        while keys.len() > 0
            decreases keys@.len(),
        {
            if let Some(k) = keys.pop() {
                k.discard();
            }
        }
        assert(self@.keys =~= Seq::<KeyView>::empty());
        n
    }
}

/// The keys that are shared with one peer.
pub struct PeerBuffers {
    enc_qkd: KeyBuffer,
    enc_pqc: KeyBuffer,
    dec: KeyBuffer,
}

#[verifier::ext_equal]
pub struct PeerKeys {
    pub qkd: BufferView,
    pub pqc: BufferView,
    pub dec: BufferView,
}

impl PeerKeys {
    pub open spec fn empty(limit: Option<usize>) -> PeerKeys {
        PeerKeys {
            qkd: BufferView::empty(limit),
            pqc: BufferView::empty(limit),
            dec: BufferView::empty(limit),
        }
    }

    /// What there is of one grade to encrypt with.
    pub open spec fn enc(self, grade: KeyGrade) -> BufferView {
        match grade {
            KeyGrade::Qkd => self.qkd,
            KeyGrade::Pqc => self.pqc,
        }
    }

    pub open spec fn with_enc(self, grade: KeyGrade, b: BufferView) -> PeerKeys {
        match grade {
            KeyGrade::Qkd => PeerKeys { qkd: b, ..self },
            KeyGrade::Pqc => PeerKeys { pqc: b, ..self },
        }
    }

    pub open spec fn with_dec(self, b: BufferView) -> PeerKeys {
        PeerKeys { dec: b, ..self }
    }

    pub open spec fn enc_len(self) -> nat {
        self.qkd.keys.len() + self.pqc.keys.len()
    }

    pub open spec fn enc_cleared(self) -> PeerKeys {
        PeerKeys { qkd: self.qkd.cleared(), pqc: self.pqc.cleared(), ..self }
    }

    /// The grade that serves an order of preference.
    pub open spec fn served(self, prefs: Seq<KeyGrade>) -> GradeResolution {
        first_available(prefs, self.qkd.keys.len() > 0, self.pqc.keys.len() > 0)
    }
}

impl View for PeerBuffers {
    type V = PeerKeys;

    closed spec fn view(&self) -> PeerKeys {
        PeerKeys { qkd: self.enc_qkd@, pqc: self.enc_pqc@, dec: self.dec@ }
    }
}

impl PeerBuffers {
    pub fn new(limit: Option<usize>) -> (r: Self)
        ensures
            r@ == PeerKeys::empty(limit),
    {
        PeerBuffers {
            enc_qkd: KeyBuffer::new(limit),
            enc_pqc: KeyBuffer::new(limit),
            dec: KeyBuffer::new(limit),
        }
    }

    /// The keys of one grade to encrypt with.
    pub fn enc(&mut self, grade: KeyGrade) -> (r: &mut KeyBuffer)
        ensures
            r@ == old(self)@.enc(grade),
            final(self)@ == old(self)@.with_enc(grade, final(r)@),
    {
        match grade {
            KeyGrade::Qkd => &mut self.enc_qkd,
            KeyGrade::Pqc => &mut self.enc_pqc,
        }
    }

    /// The keys that the peer encrypts with.
    pub fn dec(&mut self) -> (r: &mut KeyBuffer)
        ensures
            r@ == old(self)@.dec,
            final(self)@ == old(self)@.with_dec(final(r)@),
    {
        &mut self.dec
    }

    pub fn dec_len(&self) -> (r: usize)
        ensures
            r == self@.dec.keys.len(),
    {
        self.dec.len()
    }

    /// How many keys there are to encrypt with, or the greatest number there is.
    pub fn enc_len(&self) -> (r: usize)
        ensures
            r == (if self@.enc_len() > usize::MAX {
                usize::MAX as int
            } else {
                self@.enc_len() as int
            }),
    {
        self.enc_qkd.len().saturating_add(self.enc_pqc.len())
    }

    /// Drops the keys of every grade to encrypt with and says how many there were,
    /// or the greatest number there is.
    pub fn enc_clear(&mut self) -> (r: usize)
        ensures
            r == (if old(self)@.enc_len() > usize::MAX {
                usize::MAX as int
            } else {
                old(self)@.enc_len() as int
            }),
            final(self)@ == old(self)@.enc_cleared(),
    {
        let a: usize = self.enc_qkd.clear();
        let b: usize = self.enc_pqc.clear();
        a.saturating_add(b)
    }

    /// Takes the oldest key of the first grade in the order of preference of
    /// which there is one.
    pub fn enc_pop_pref(&mut self, prefs: &Vec<KeyGrade>) -> (r: Option<TransportKey>)
        ensures
            match (r, old(self)@.served(prefs@)) {
                (Some(k), GradeResolution::Serve(g)) => {
                    &&& old(self)@.enc(g).keys.len() > 0
                    &&& k@ == old(self)@.enc(g).keys[0]
                    &&& final(self)@ == old(self)@.with_enc(g, old(self)@.enc(g).popped())
                },
                (None, GradeResolution::Unsatisfiable) => final(self)@ == old(self)@,
                _ => false,
            },
    {
        let ghost before = self@;
        let n: usize = prefs.len();
        let mut i: usize = 0;
        assert(prefs@.skip(0) =~= prefs@);
        while i < n
            invariant
                n == prefs@.len(),
                i <= n,
                before == old(self)@,
                self@ == before,
                before.served(prefs@) == before.served(prefs@.skip(i as int)),
            decreases n - i,
        {
            assert(prefs@.skip(i as int)[0] == prefs@[i as int]);
            assert(prefs@.skip(i as int).drop_first() =~= prefs@.skip(i + 1));
            let ghost g = prefs@[i as int];
            match self.enc(prefs[i]).pop_oldest() {
                Some(k) => {
                    assert(before.served(prefs@) == GradeResolution::Serve(g));
                    assert(self@ =~= before.with_enc(g, before.enc(g).popped()));
                    return Some(k);
                },
                None => {},
            }
            assert(self@ =~= before);
            i = i + 1;
        }
        None
    }
}

#[verifier::ext_equal]
pub struct PoolView {
    pub peers: Map<Seq<char>, PeerKeys>,
    /// How many keys a peer should have.
    pub capacity: usize,
    /// How many keys a buffer takes at most.
    pub limit: Option<usize>,
}

impl PoolView {
    pub open spec fn of(self, peer: Seq<char>) -> PeerKeys {
        if self.peers.dom().contains(peer) {
            self.peers[peer]
        } else {
            PeerKeys::empty(self.limit)
        }
    }

    pub open spec fn with(self, peer: Seq<char>, keys: PeerKeys) -> PoolView {
        PoolView { peers: self.peers.insert(peer, keys), ..self }
    }
}

/// The buffers of all peers.
pub struct BufferPool {
    peers: Table<PeerBuffers>,
    capacity: usize,
    limit: Option<usize>,
}

pub open spec fn peer_keys(m: Map<Seq<char>, PeerBuffers>) -> Map<Seq<char>, PeerKeys> {
    Map::new(|p: Seq<char>| m.dom().contains(p), |p: Seq<char>| m[p]@)
}

impl View for BufferPool {
    type V = PoolView;

    closed spec fn view(&self) -> PoolView {
        PoolView {
            peers: peer_keys(self.peers@),
            capacity: self.capacity,
            limit: self.limit,
        }
    }
}

impl BufferPool {
    pub closed spec fn inv(self) -> bool {
        self.peers.inv()
    }

    /// Buffers that take every key. The capacity says when enough keys are there.
    pub fn new(capacity: usize) -> (r: Self)
        ensures
            r.inv(),
            r@ == (PoolView { peers: Map::empty(), capacity, limit: None }),
    {
        let r = BufferPool { peers: Table::new(), capacity, limit: None };
        assert(r@.peers =~= Map::<Seq<char>, PeerKeys>::empty());
        r
    }

    /// Buffers that refuse keys above their capacity.
    pub fn bounded(capacity: usize) -> (r: Self)
        ensures
            r.inv(),
            r@ == (PoolView { peers: Map::empty(), capacity, limit: Some(capacity) }),
    {
        let r = BufferPool { peers: Table::new(), capacity, limit: Some(capacity) };
        assert(r@.peers =~= Map::<Seq<char>, PeerKeys>::empty());
        r
    }

    pub fn capacity(&self) -> (r: usize)
        ensures
            r == self@.capacity,
    {
        self.capacity
    }

    /// The buffers of a peer, which start empty.
    pub fn for_peer(&mut self, peer: &str) -> (r: &mut PeerBuffers)
        requires
            old(self).inv(),
        ensures
            r@ == old(self)@.of(peer@),
            final(self).inv(),
            final(self)@ == old(self)@.with(peer@, final(r)@),
    {
        if !self.peers.contains(peer) {
            self.peers.insert(peer, PeerBuffers::new(self.limit));
        }
        match self.peers.get_mut(peer) {
            Some(b) => b,
            None => vstd::pervasive::unreached(),
        }
    }

    /// How many keys there are to encrypt with for a peer, or the greatest number
    /// there is.
    pub fn enc_len(&self, peer: &str) -> (r: usize)
        requires
            self.inv(),
        ensures
            r == (if self@.of(peer@).enc_len() > usize::MAX {
                usize::MAX as int
            } else {
                self@.of(peer@).enc_len() as int
            }),
    {
        match self.peers.get(peer) {
            Some(b) => b.enc_len(),
            None => 0,
        }
    }

    pub fn dec_len(&self, peer: &str) -> (r: usize)
        requires
            self.inv(),
        ensures
            r == self@.of(peer@).dec.keys.len(),
    {
        match self.peers.get(peer) {
            Some(b) => b.dec_len(),
            None => 0,
        }
    }

    /// Drops all keys of all peers.
    pub fn clear_all(&mut self)
        requires
            old(self).inv(),
        ensures
            final(self).inv(),
            final(self)@ == (PoolView { peers: Map::empty(), ..old(self)@ }),
    {
        self.peers = Table::new();
        assert(self@.peers =~= Map::<Seq<char>, PeerKeys>::empty());
    }

    /// The peers that have buffers, each once.
    pub fn peer_ids(&self) -> (r: Vec<String>)
        requires
            self.inv(),
        ensures
            r@.map_values(|s: String| s@).no_duplicates(),
            r@.map_values(|s: String| s@).to_set() == self@.peers.dom(),
    {
        proof {
            self.peers.lemma_keys();
            assert(self@.peers.dom() =~= self.peers@.dom());
        }
        self.peers.key_list()
    }
}

/// A transport key is used once: what was taken by its name is not there again,
/// unless another key has the same name.
pub proof fn taken_key_is_not_taken_again(b: BufferView, id: Seq<char>, i: int)
    requires
        position(b.keys, id) == Some(i),
        forall|j: int, k: int|
            0 <= j < k < b.keys.len() ==> (#[trigger] b.keys[j]).id != (#[trigger] b.keys[k]).id,
    ensures
        position(b.without(i).keys, id) is None,
{
    lemma_position(b.keys, id);
    let rest = b.without(i).keys;
    lemma_position(rest, id);
    if let Some(j) = position(rest, id) {
        if j < i {
            assert(rest[j] == b.keys[j]);
        } else {
            assert(rest[j] == b.keys[j + 1]);
            assert(b.keys[i].id != b.keys[j + 1].id);
        }
    }
}

/// A request for strict QKD leaves the keys of the other grade alone.
pub proof fn strict_requests_leave_other_grades(keys: PeerKeys)
    ensures
        keys.served(crate::security::SecurityLevel::StrictQkd.prefs()) == (if keys.qkd.keys.len()
            > 0 {
            GradeResolution::Serve(KeyGrade::Qkd)
        } else {
            GradeResolution::Unsatisfiable
        }),
{
    crate::security::strict_requests_get_qkd_only(keys.qkd.keys.len() > 0, keys.pqc.keys.len() > 0);
}

/// What comes in first goes out first: a key that is put in goes behind the others,
/// and is the next one only where there are none.
pub proof fn first_in_is_first_out(b: BufferView, key: KeyView)
    ensures
        b.pushed(key).keys.len() == b.keys.len() + 1,
        b.keys.len() > 0 ==> b.pushed(key).keys[0] == b.keys[0] && b.pushed(key).popped()
            == b.popped().pushed(key),
        b.keys.len() == 0 ==> b.pushed(key).keys[0] == key && b.pushed(key).popped().keys.len() == 0,
        b.pushed(key).limit == b.limit,
{
    if b.keys.len() > 0 {
        assert(b.pushed(key).popped() =~= b.popped().pushed(key));
    }
}

/// A buffer is full when it holds what it may, and one without a limit never is.
pub proof fn only_limited_buffers_fill(b: BufferView)
    ensures
        b.limit is None ==> !b.full(),
        b.limit matches Some(n) ==> (b.full() <==> b.keys.len() >= n),
        b.cleared().keys.len() == 0,
        b.cleared().limit == b.limit,
{
}

/// The keys of a peer are kept apart: by grade, by direction and from those of other
/// peers, and a peer that was never heard of has none.
pub proof fn keys_are_kept_apart(
    pool: PoolView,
    keys: PeerKeys,
    b: BufferView,
    peer: Seq<char>,
    other: Seq<char>,
)
    requires
        other != peer,
    ensures
        keys.enc(KeyGrade::Qkd) == keys.qkd && keys.enc(KeyGrade::Pqc) == keys.pqc,
        keys.with_enc(KeyGrade::Qkd, b) == (PeerKeys { qkd: b, ..keys }),
        keys.with_enc(KeyGrade::Pqc, b) == (PeerKeys { pqc: b, ..keys }),
        keys.with_dec(b).dec == b && keys.with_dec(b).qkd == keys.qkd && keys.with_dec(b).pqc
            == keys.pqc,
        keys.enc_len() == keys.qkd.keys.len() + keys.pqc.keys.len(),
        keys.enc_cleared().qkd.keys.len() == 0 && keys.enc_cleared().pqc.keys.len() == 0
            && keys.enc_cleared().dec == keys.dec,
        pool.with(peer, keys).of(peer) == keys,
        pool.with(peer, keys).of(other) == pool.of(other),
        !pool.peers.dom().contains(peer) ==> {
            &&& pool.of(peer).qkd.keys.len() == 0
            &&& pool.of(peer).pqc.keys.len() == 0
            &&& pool.of(peer).dec.keys.len() == 0
            &&& pool.of(peer).qkd.limit == pool.limit
            &&& pool.of(peer).pqc.limit == pool.limit
            &&& pool.of(peer).dec.limit == pool.limit
        },
{
}

/// A key is taken by its name, the oldest of that name, and the others stay in their
/// order.
pub proof fn key_is_taken_by_its_name(b: BufferView, i: int)
    requires
        0 <= i < b.keys.len(),
        forall|j: int| 0 <= j < i ==> (#[trigger] b.keys[j]).id != b.keys[i].id,
    ensures
        position(b.keys, b.keys[i].id) == Some(i),
        b.without(i).keys.len() == b.keys.len() - 1,
        forall|j: int| 0 <= j < i ==> #[trigger] b.without(i).keys[j] == b.keys[j],
        forall|j: int| i <= j < b.keys.len() - 1 ==> #[trigger] b.without(i).keys[j] == b.keys[j + 1],
{
    lemma_position(b.keys, b.keys[i].id);
}

} // verus!
