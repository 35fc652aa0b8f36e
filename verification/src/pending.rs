//! Session keys that wait for the applications they were made for.
use crate::crypto::primitives::wipe;
use crate::error::DkmsError;
use crate::ids::{KeyId, SaeId};
use crate::table::Table;
use vstd::prelude::*;
use vstd::string::*;

verus! {

struct PendingEntry {
    initiator: SaeId,
    authorized: Vec<SaeId>,
    bytes: Vec<u8>,
    deadline_ns: u64,
}

/// A key, who asked for it, who may still take it, and until when.
#[verifier::ext_equal]
pub struct PendingKey {
    pub initiator: Seq<char>,
    pub authorized: Set<Seq<char>>,
    pub bytes: Seq<u8>,
    pub deadline_ns: u64,
}

impl PendingKey {
    pub open spec fn expired(self, now_ns: u64) -> bool {
        now_ns >= self.deadline_ns
    }

    /// The key once `sae` has taken it.
    pub open spec fn taken_by(self, sae: Seq<char>) -> PendingKey {
        PendingKey { authorized: self.authorized.remove(sae), ..self }
    }
}

/// The names in a list.
pub open spec fn sae_set(v: Seq<SaeId>) -> Set<Seq<char>> {
    v.map_values(|s: SaeId| s@).to_set()
}

impl View for PendingEntry {
    type V = PendingKey;

    closed spec fn view(&self) -> PendingKey {
        PendingKey {
            initiator: self.initiator@,
            authorized: sae_set(self.authorized@),
            bytes: self.bytes@,
            deadline_ns: self.deadline_ns,
        }
    }
}

pub proof fn lemma_sae_set(v: Seq<SaeId>, s: Seq<char>)
    ensures
        sae_set(v).contains(s) <==> exists|i: int| 0 <= i < v.len() && (#[trigger] v[i])@ == s,
{
    let m = v.map_values(|s: SaeId| s@);
    if sae_set(v).contains(s) {
        let i = choose|i: int| 0 <= i < m.len() && m[i] == s;
        assert(v[i]@ == s);
    }
    if exists|i: int| 0 <= i < v.len() && (#[trigger] v[i])@ == s {
        let i = choose|i: int| 0 <= i < v.len() && (#[trigger] v[i])@ == s;
        assert(m[i] == s);
    }
}

/// Copies of the names in a list.
pub fn copy_saes(v: &Vec<SaeId>) -> (r: Vec<SaeId>)
    ensures
        r@.map_values(|s: SaeId| s@) == v@.map_values(|s: SaeId| s@),
{
    let mut out: Vec<SaeId> = Vec::new();
    let n: usize = v.len();
    let mut i: usize = 0;
    while i < n
        invariant
            n == v@.len(),
            i <= n,
            out@.len() == i,
            forall|j: int| 0 <= j < i ==> (#[trigger] out@[j])@ == v@[j]@,
        decreases n - i,
    {
        out.push(v[i].copy());
        i = i + 1;
    }
    assert(out@.map_values(|s: SaeId| s@) =~= v@.map_values(|s: SaeId| s@));
    out
}

/// Gives a key up; its bytes are overwritten.
fn discard(entry: Option<PendingEntry>) {
    if let Some(e) = entry {
        let mut bytes = e.bytes;
        wipe(&mut bytes);
    }
}

/// The names in a list but one, and whether that one was among them.
fn without_sae(v: &Vec<SaeId>, sae: &SaeId) -> (r: (Vec<SaeId>, bool))
    ensures
        sae_set(r.0@) == sae_set(v@).remove(sae@),
        r.1 == sae_set(v@).contains(sae@),
        r.0@.len() == 0 <==> sae_set(v@).remove(sae@) == Set::<Seq<char>>::empty(),
{
    let mut out: Vec<SaeId> = Vec::new();
    let mut found = false;
    let n: usize = v.len();
    let mut i: usize = 0;
    while i < n
        invariant
            n == v@.len(),
            i <= n,
            found == exists|j: int| 0 <= j < i && (#[trigger] v@[j])@ == sae@,
            forall|k: int|
                0 <= k < out@.len() ==> (#[trigger] out@[k])@ != sae@ && exists|j: int|
                    0 <= j < n && (#[trigger] v@[j])@ == out@[k]@,
            forall|j: int|
                0 <= j < i && (#[trigger] v@[j])@ != sae@ ==> exists|k: int|
                    0 <= k < out@.len() && (#[trigger] out@[k])@ == v@[j]@,
        decreases n - i,
    {
        let ghost prior = out@;
        if v[i].is(sae) {
            found = true;
            assert(v@[i as int]@ == sae@);
        } else {
            out.push(v[i].copy());
            assert(out@[prior.len() as int]@ == v@[i as int]@);
        }
        proof {
            assert forall|j: int| 0 <= j < i + 1 && (#[trigger] v@[j])@ != sae@ implies exists|k: int|
                0 <= k < out@.len() && (#[trigger] out@[k])@ == v@[j]@ by {
                if j < i {
                    let k = choose|k: int| 0 <= k < prior.len() && (#[trigger] prior[k])@ == v@[j]@;
                    assert(out@[k]@ == v@[j]@);
                }
            }
        }
        i = i + 1;
    }
    proof {
        let rest = sae_set(v@).remove(sae@);
        assert forall|s: Seq<char>| #[trigger] sae_set(out@).contains(s) == rest.contains(s) by {
            lemma_sae_set(out@, s);
            lemma_sae_set(v@, s);
            if sae_set(out@).contains(s) {
                let k = choose|k: int| 0 <= k < out@.len() && (#[trigger] out@[k])@ == s;
            }
            if rest.contains(s) {
                let j = choose|j: int| 0 <= j < v@.len() && (#[trigger] v@[j])@ == s;
                assert(v@[j]@ != sae@);
            }
        }
        assert(sae_set(out@) =~= rest);
        lemma_sae_set(v@, sae@);
        if out@.len() == 0 {
            assert(rest =~= Set::<Seq<char>>::empty());
        } else {
            lemma_sae_set(out@, out@[0]@);
            assert(rest.contains(out@[0]@));
        }
    }
    (out, found)
}

#[verifier::ext_equal]
pub struct PendingKeys {
    pub keys: Map<Seq<char>, PendingKey>,
    pub default_ttl_ns: u64,
}

impl PendingKeys {
    /// When a key that is put in at `now_ns` is given up.
    pub open spec fn deadline(self, now_ns: u64, ttl_ns: Option<u64>) -> u64 {
        let ttl = match ttl_ns {
            Some(t) => t,
            None => self.default_ttl_ns,
        };
        if now_ns + ttl > u64::MAX {
            u64::MAX
        } else {
            (now_ns + ttl) as u64
        }
    }

    pub open spec fn inserted(self, key_id: Seq<char>, key: PendingKey) -> PendingKeys {
        PendingKeys { keys: self.keys.insert(key_id, key), ..self }
    }

    pub open spec fn removed(self, key_id: Seq<char>) -> PendingKeys {
        PendingKeys { keys: self.keys.remove(key_id), ..self }
    }

    /// Whether `sae` may take the key and it has not expired.
    pub open spec fn available(self, key_id: Seq<char>, sae: Seq<char>, now_ns: u64) -> bool {
        &&& self.keys.dom().contains(key_id)
        &&& self.keys[key_id].authorized.contains(sae)
        &&& !self.keys[key_id].expired(now_ns)
    }

    /// What is left once `sae` has taken the key: it goes with the last one who
    /// may take it.
    pub open spec fn taken(self, key_id: Seq<char>, sae: Seq<char>) -> PendingKeys {
        let left = self.keys[key_id].taken_by(sae);
        if left.authorized == Set::<Seq<char>>::empty() {
            self.removed(key_id)
        } else {
            self.inserted(key_id, left)
        }
    }

    pub open spec fn swept(self, now_ns: u64) -> PendingKeys {
        PendingKeys {
            keys: self.keys.restrict(
                self.keys.dom().filter(|k: Seq<char>| !self.keys[k].expired(now_ns)),
            ),
            ..self
        }
    }
}

/// The keys that wait, by their names.
pub struct PendingStore {
    entries: Table<PendingEntry>,
    default_ttl_ns: u64,
}

spec fn entry_views(m: Map<Seq<char>, PendingEntry>) -> Map<Seq<char>, PendingKey> {
    Map::new(|k: Seq<char>| m.dom().contains(k), |k: Seq<char>| m[k]@)
}

impl View for PendingStore {
    type V = PendingKeys;

    closed spec fn view(&self) -> PendingKeys {
        PendingKeys { keys: entry_views(self.entries@), default_ttl_ns: self.default_ttl_ns }
    }
}

impl PendingStore {
    pub closed spec fn inv(self) -> bool {
        self.entries.inv()
    }

    pub fn new(default_ttl_ns: u64) -> (r: Self)
        ensures
            r.inv(),
            r@ == (PendingKeys { keys: Map::empty(), default_ttl_ns }),
    {
        let r = PendingStore { entries: Table::new(), default_ttl_ns };
        assert(r@.keys =~= Map::<Seq<char>, PendingKey>::empty());
        r
    }

    /// Lets the authorized applications take a key, each once, until its time is
    /// up.
    pub fn insert(
        &mut self,
        key_id: &KeyId,
        initiator: &SaeId,
        authorized: &Vec<SaeId>,
        bytes: Vec<u8>,
        ttl_ns: Option<u64>,
        now_ns: u64,
    )
        requires
            old(self).inv(),
        ensures
            final(self).inv(),
            final(self)@ == old(self)@.inserted(
                key_id@,
                PendingKey {
                    initiator: initiator@,
                    authorized: sae_set(authorized@),
                    bytes: bytes@,
                    deadline_ns: old(self)@.deadline(now_ns, ttl_ns),
                },
            ),
    {
        let ghost before = self@;
        let ttl: u64 = match ttl_ns {
            Some(t) => t,
            None => self.default_ttl_ns,
        };
        let entry = PendingEntry {
            initiator: initiator.copy(),
            authorized: copy_saes(authorized),
            bytes,
            deadline_ns: now_ns.saturating_add(ttl),
        };
        let ghost ev = entry@;
        self.entries.insert(key_id.as_str(), entry);
        assert(self@.keys =~= before.keys.insert(key_id@, ev));
    }

    /// Hands a key to an application that may take it, with who asked for it.
    pub fn take_for_sae(&mut self, key_id: &KeyId, sae: &SaeId, now_ns: u64) -> (r: Result<
        (Vec<u8>, SaeId),
        DkmsError,
    >)
        requires
            old(self).inv(),
        ensures
            final(self).inv(),
            match r {
                Ok((bytes, initiator)) => {
                    &&& old(self)@.available(key_id@, sae@, now_ns)
                    &&& bytes@ == old(self)@.keys[key_id@].bytes
                    &&& initiator@ == old(self)@.keys[key_id@].initiator
                    &&& final(self)@ == old(self)@.taken(key_id@, sae@)
                },
                Err(e) => {
                    &&& !old(self)@.available(key_id@, sae@, now_ns)
                    &&& final(self)@ == old(self)@
                    &&& if old(self)@.keys.dom().contains(key_id@)
                        && old(self)@.keys[key_id@].authorized.contains(sae@) {
                        e is KeyExpired
                    } else {
                        e matches DkmsError::KeyNotAuthorized { sae: s } && s@ == sae@
                    }
                },
            },
    {
        let ghost before = self@;
        let entry = match self.entries.get(key_id.as_str()) {
            Some(e) => e,
            None => {
                return Err(DkmsError::KeyNotAuthorized { sae: sae.copy() });
            },
        };
        assert(before.keys[key_id@] == entry@);
        let (left, found) = without_sae(&entry.authorized, sae);
        if !found {
            return Err(DkmsError::KeyNotAuthorized { sae: sae.copy() });
        }
        if now_ns >= entry.deadline_ns {
            return Err(DkmsError::KeyExpired);
        }
        let bytes = entry.bytes.clone();
        let initiator = entry.initiator.copy();
        let deadline_ns = entry.deadline_ns;
        assert(bytes@ == entry.bytes@);
        let ghost left_set = sae_set(left@);
        if left.len() == 0 {
            let gone = self.entries.remove(key_id.as_str());
            discard(gone);
            assert(self@.keys =~= before.keys.remove(key_id@));
        } else {
            let kept = PendingEntry {
                initiator: initiator.copy(),
                authorized: left,
                bytes: bytes.clone(),
                deadline_ns,
            };
            assert(kept@ =~= before.keys[key_id@].taken_by(sae@));
            self.entries.insert(key_id.as_str(), kept);
            assert(self@.keys =~= before.keys.insert(
                key_id@,
                before.keys[key_id@].taken_by(sae@),
            ));
        }
        Ok((bytes, initiator))
    }

    /// Drops a key, whoever might still take it.
    pub fn force_remove(&mut self, key_id: &KeyId)
        requires
            old(self).inv(),
        ensures
            final(self).inv(),
            final(self)@ == old(self)@.removed(key_id@),
    {
        let ghost before = self@;
        let gone = self.entries.remove(key_id.as_str());
        discard(gone);
        assert(self@.keys =~= before.keys.remove(key_id@));
    }

    pub fn len(&self) -> (r: usize)
        requires
            self.inv(),
        ensures
            r == self@.keys.dom().len(),
    {
        assert(self@.keys.dom() =~= self.entries@.dom());
        self.entries.len()
    }

    /// Drops every key.
    pub fn clear(&mut self)
        requires
            old(self).inv(),
        ensures
            final(self).inv(),
            final(self)@ == (PendingKeys { keys: Map::empty(), ..old(self)@ }),
    {
        let keys = self.entries.key_list();
        let ttl = self.default_ttl_ns;
        let n: usize = keys.len();
        let mut i: usize = 0;
        while i < n
            invariant
                n == keys@.len(),
                i <= n,
                self.inv(),
                self.default_ttl_ns == ttl,
            decreases n - i,
        {
            let gone = self.entries.remove(keys[i].as_str());
            discard(gone);
            i = i + 1;
        }
        self.entries = Table::new();
        assert(self@.keys =~= Map::<Seq<char>, PendingKey>::empty());
    }

    /// Drops the keys whose time is up.
    pub fn sweep(&mut self, now_ns: u64)
        requires
            old(self).inv(),
        ensures
            final(self).inv(),
            final(self)@ == old(self)@.swept(now_ns),
    {
        let ghost before = self@;
        let keys = self.entries.key_list();
        let ghost texts = keys@.map_values(|s: String| s@);
        proof {
            self.entries.lemma_keys();
            assert(before.keys.dom() =~= self.entries@.dom());
        }
        let mut i: usize = 0;
        while i < keys.len()
            invariant
                texts == keys@.map_values(|s: String| s@),
                texts.no_duplicates(),
                texts.to_set() == before.keys.dom(),
                i <= keys@.len(),
                self.inv(),
                self@.default_ttl_ns == before.default_ttl_ns,
                forall|k: Seq<char>| #[trigger]
                    self@.keys.dom().contains(k) ==> before.keys.contains_pair(k, self@.keys[k]),
                forall|j: int|
                    i <= j < texts.len() ==> self@.keys.dom().contains(#[trigger] texts[j]),
                forall|j: int|
                    0 <= j < i ==> self@.keys.dom().contains(#[trigger] texts[j])
                        == !before.keys[texts[j]].expired(now_ns),
            decreases keys@.len() - i,
        {
            let k = keys[i].as_str();
            let ghost kt = texts[i as int];
            let ghost s0 = self@;
            assert(s0.keys.dom().contains(kt));
            assert(s0.keys[kt] == before.keys[kt]);
            let expired: bool = match self.entries.get(k) {
                Some(e) => now_ns >= e.deadline_ns,
                None => false,
            };
            if expired {
                let gone = self.entries.remove(k);
                discard(gone);
                assert(self@.keys =~= s0.keys.remove(kt));
            }
            i = i + 1;
        }
        proof {
            let after = before.swept(now_ns);
            assert forall|k: Seq<char>| #[trigger] self@.keys.dom().contains(k)
                == after.keys.dom().contains(k) by {
                if before.keys.dom().contains(k) {
                    assert(texts.to_set().contains(k));
                    let j = choose|j: int| 0 <= j < texts.len() && texts[j] == k;
                    assert(self@.keys.dom().contains(texts[j]) == !before.keys[texts[j]].expired(
                        now_ns,
                    ));
                }
            }
            assert(self@.keys =~= after.keys);
        }
    }
}

/// A key goes to each application once.
pub proof fn key_is_taken_once(m: PendingKeys, key_id: Seq<char>, sae: Seq<char>, now_ns: u64, later_ns: u64)
    requires
        m.available(key_id, sae, now_ns),
    ensures
        !m.taken(key_id, sae).available(key_id, sae, later_ns),
{
}

/// What one application takes, another that may take it still gets, unchanged.
pub proof fn others_still_get_the_key(
    m: PendingKeys,
    key_id: Seq<char>,
    sae: Seq<char>,
    other: Seq<char>,
    now_ns: u64,
)
    requires
        m.available(key_id, sae, now_ns),
        m.available(key_id, other, now_ns),
        sae != other,
    ensures
        m.taken(key_id, sae).available(key_id, other, now_ns),
        m.taken(key_id, sae).keys[key_id].bytes == m.keys[key_id].bytes,
{
    let left = m.keys[key_id].taken_by(sae);
    assert(left.authorized.contains(other));
}

/// A key goes only to those it was made for.
pub proof fn only_the_authorized_get_the_key(
    m: PendingKeys,
    key_id: Seq<char>,
    key: PendingKey,
    sae: Seq<char>,
    now_ns: u64,
)
    requires
        !key.authorized.contains(sae),
    ensures
        !m.inserted(key_id, key).available(key_id, sae, now_ns),
{
}

/// A key that is put in can be taken until its own time, or else the default time, is
/// up, and not from then on.
pub proof fn key_is_kept_for_its_time(
    m: PendingKeys,
    key_id: Seq<char>,
    key: PendingKey,
    ttl_ns: Option<u64>,
    sae: Seq<char>,
    now_ns: u64,
    later_ns: u64,
)
    requires
        key.deadline_ns == m.deadline(now_ns, ttl_ns),
        key.authorized.contains(sae),
        later_ns < u64::MAX,
    ensures
        ttl_ns matches Some(t) ==> (m.inserted(key_id, key).available(key_id, sae, later_ns)
            <==> later_ns < now_ns + t),
        ttl_ns is None ==> (m.inserted(key_id, key).available(key_id, sae, later_ns) <==> later_ns
            < now_ns + m.default_ttl_ns),
{
}

/// Putting a key in, taking one or dropping one leaves the others as they are.
pub proof fn keys_do_not_disturb_each_other(
    m: PendingKeys,
    key_id: Seq<char>,
    key: PendingKey,
    sae: Seq<char>,
    other: Seq<char>,
    held: PendingKey,
)
    requires
        other != key_id,
    ensures
        m.inserted(key_id, key).keys.contains_pair(other, held) <==> m.keys.contains_pair(other, held),
        m.removed(key_id).keys.contains_pair(other, held) <==> m.keys.contains_pair(other, held),
        m.taken(key_id, sae).keys.contains_pair(other, held) <==> m.keys.contains_pair(other, held),
        !m.removed(key_id).keys.dom().contains(key_id),
        m.inserted(key_id, key).keys.contains_pair(key_id, key),
{
}

/// A key that several may take loses one of them at a time, and goes with the last.
pub proof fn key_goes_with_the_last_who_takes_it(m: PendingKeys, key_id: Seq<char>, sae: Seq<char>)
    requires
        m.keys.dom().contains(key_id),
        m.keys[key_id].authorized.contains(sae),
    ensures
        m.taken(key_id, sae).keys.dom().contains(key_id) <==> exists|other: Seq<char>|
            other != sae && #[trigger] m.keys[key_id].authorized.contains(other),
        m.taken(key_id, sae).keys.dom().contains(key_id) ==> {
            let left = m.taken(key_id, sae).keys[key_id];
            &&& left.bytes == m.keys[key_id].bytes
            &&& left.deadline_ns == m.keys[key_id].deadline_ns
            &&& left.initiator == m.keys[key_id].initiator
            &&& forall|other: Seq<char>| #[trigger]
                left.authorized.contains(other) <==> other != sae
                    && m.keys[key_id].authorized.contains(other)
        },
{
    let left = m.keys[key_id].taken_by(sae);
    if exists|other: Seq<char>| other != sae && #[trigger] m.keys[key_id].authorized.contains(other) {
        let other = choose|other: Seq<char>|
            other != sae && #[trigger] m.keys[key_id].authorized.contains(other);
        assert(left.authorized.contains(other));
    } else {
        assert(left.authorized =~= Set::<Seq<char>>::empty());
    }
}

/// A sweep drops exactly the keys whose time is up.
pub proof fn sweep_drops_only_what_is_out_of_time(
    m: PendingKeys,
    now_ns: u64,
    key_id: Seq<char>,
    key: PendingKey,
)
    ensures
        m.swept(now_ns).keys.contains_pair(key_id, key) <==> m.keys.contains_pair(key_id, key)
            && now_ns < key.deadline_ns,
        m.swept(now_ns).default_ttl_ns == m.default_ttl_ns,
{
}

} // verus!
