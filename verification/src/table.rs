//! Maps from texts: [`Table`], found by hash, and [`Headers`], kept in order.
use crate::text::{is_less, lemma_text_less_transitive, lemma_text_order, text_eq, text_less};
use dashmap::DashMap;
use vstd::prelude::*;
use vstd::string::*;

verus! {

/// `dashmap::DashMap`, which a [`Table`] finds its slots with.
#[verifier::external_type_specification]
#[verifier::external_body]
#[verifier::reject_recursive_types(K)]
#[verifier::reject_recursive_types(V)]
#[verifier::reject_recursive_types(S)]
pub struct ExDashMap<K, V, S>(dashmap::DashMap<K, V, S>);

/// What the map holds: a slot number under each text.
pub uninterp spec fn indexed(m: DashMap<String, usize>) -> Map<Seq<char>, usize>;

/// `DashMap::new`: nothing is in the map.
#[verifier::external_body]
fn index_new() -> (r: DashMap<String, usize>)
    ensures
        indexed(r).dom() == Set::<Seq<char>>::empty(),
{
    DashMap::new()
}

/// `DashMap::insert`: the number stands under the text, whatever stood there,
/// which is handed back.
#[verifier::external_body]
fn index_insert(m: &mut DashMap<String, usize>, key: String, slot: usize) -> (r: Option<usize>)
    ensures
        indexed(*final(m)) == indexed(*old(m)).insert(key@, slot),
        match r {
            Some(s) => indexed(*old(m)).contains_pair(key@, s),
            None => !indexed(*old(m)).dom().contains(key@),
        },
{
    m.insert(key, slot)
}

/// `DashMap::get`: the number under a text, copied out.
#[verifier::external_body]
fn index_get(m: &DashMap<String, usize>, key: &str) -> (r: Option<usize>)
    ensures
        match r {
            Some(s) => indexed(*m).contains_pair(key@, s),
            None => !indexed(*m).dom().contains(key@),
        },
{
    m.get(key).map(|slot| *slot)
}

/// `DashMap::remove`: the text is no longer in the map; what stood under it is
/// handed back.
#[verifier::external_body]
fn index_remove(m: &mut DashMap<String, usize>, key: &str) -> (r: Option<usize>)
    ensures
        indexed(*final(m)) == indexed(*old(m)).remove(key@),
        match r {
            Some(s) => indexed(*old(m)).contains_pair(key@, s),
            None => !indexed(*old(m)).dom().contains(key@),
        },
{
    m.remove(key).map(|pair| pair.1)
}

/// A map from texts to `V`.
pub struct Table<V> {
    index: DashMap<String, usize>,
    slots: Vec<(String, V)>,
}

impl<V> View for Table<V> {
    type V = Map<Seq<char>, V>;

    closed spec fn view(&self) -> Map<Seq<char>, V> {
        Map::new(
            |k: Seq<char>| indexed(self.index).dom().contains(k),
            |k: Seq<char>| self.slots@[indexed(self.index)[k] as int].1,
        )
    }
}

impl<V> Table<V> {
    /// The slots and the index say the same.
    pub closed spec fn inv(self) -> bool {
        let ix = indexed(self.index);
        &&& forall|i: int|
            0 <= i < self.slots@.len() ==> ix.dom().contains(#[trigger] self.slots@[i].0@)
                && ix[self.slots@[i].0@] == i
        &&& forall|k: Seq<char>|
            #[trigger] ix.dom().contains(k) ==> ix[k] < self.slots@.len() && self.slots@[ix[k] as int].0@
                == k
    }

    pub fn new() -> (r: Self)
        ensures
            r.inv(),
            r@ == Map::<Seq<char>, V>::empty(),
    {
        let r = Table { index: index_new(), slots: Vec::new() };
        assert(r@ =~= Map::<Seq<char>, V>::empty());
        r
    }

    pub fn contains(&self, key: &str) -> (r: bool)
        requires
            self.inv(),
        ensures
            r == self@.dom().contains(key@),
    {
        index_get(&self.index, key).is_some()
    }

    pub fn get(&self, key: &str) -> (r: Option<&V>)
        requires
            self.inv(),
        ensures
            match r {
                Some(v) => self@.dom().contains(key@) && *v == self@[key@],
                None => !self@.dom().contains(key@),
            },
    {
        match index_get(&self.index, key) {
            Some(i) => Some(&self.slots[i].1),
            None => None,
        }
    }

    /// Puts `value` under `key` and hands back what stood there.
    pub fn insert(&mut self, key: &str, value: V) -> (r: Option<V>)
        requires
            old(self).inv(),
        ensures
            final(self).inv(),
            final(self)@ == old(self)@.insert(key@, value),
            match r {
                Some(v) => old(self)@.contains_pair(key@, v),
                None => !old(self)@.dom().contains(key@),
            },
    {
        let ghost before = *self;
        match index_get(&self.index, key) {
            Some(i) => {
                let mut slot = (key.to_owned(), value);
                let ghost given = slot;
                std::mem::swap(&mut self.slots[i], &mut slot);
                assert(self.slots@ == before.slots@.update(i as int, given));
                assert(self@ =~= before@.insert(key@, value));
                Some(slot.1)
            },
            None => {
                let n: usize = self.slots.len();
                index_insert(&mut self.index, key.to_owned(), n);
                self.slots.push((key.to_owned(), value));
                proof {
                    assert forall|i: int| 0 <= i < self.slots@.len() implies indexed(
                        self.index,
                    ).dom().contains(#[trigger] self.slots@[i].0@) && indexed(
                        self.index,
                    )[self.slots@[i].0@] == i by {
                        if i < n {
                            assert(before.slots@[i].0@ == self.slots@[i].0@);
                            assert(indexed(before.index).dom().contains(before.slots@[i].0@));
                        }
                    }
                    assert(self@ =~= before@.insert(key@, value));
                }
                None
            },
        }
    }

    /// Takes `key` out and hands back what stood under it.
    pub fn remove(&mut self, key: &str) -> (r: Option<V>)
        requires
            old(self).inv(),
        ensures
            final(self).inv(),
            final(self)@ == old(self)@.remove(key@),
            match r {
                Some(v) => old(self)@.contains_pair(key@, v),
                None => !old(self)@.dom().contains(key@),
            },
    {
        let ghost before = *self;
        match index_remove(&mut self.index, key) {
            Some(i) => {
                let last: usize = self.slots.len() - 1;
                let gone = self.slots.swap_remove(i);
                if i < last {
                    index_insert(&mut self.index, self.slots[i].0.clone(), i);
                }
                proof {
                    let ix0 = indexed(before.index);
                    let ix = indexed(self.index);
                    assert(before.slots@[i as int].0@ == key@);
                    assert(ix0.contains_pair(before.slots@[last as int].0@, last));
                    assert forall|j: int| 0 <= j < self.slots@.len() implies ix.dom().contains(
                        #[trigger] self.slots@[j].0@,
                    ) && ix[self.slots@[j].0@] == j by {
                        if j != i {
                            assert(self.slots@[j] == before.slots@[j]);
                            assert(ix0.dom().contains(before.slots@[j].0@));
                        } else {
                            assert(self.slots@[j] == before.slots@[last as int]);
                        }
                    }
                    assert forall|k: Seq<char>| #[trigger] ix.dom().contains(k) implies ix[k]
                        < self.slots@.len() && self.slots@[ix[k] as int].0@ == k by {
                        assert(ix0.dom().contains(k));
                    }
                    assert forall|k: Seq<char>| #[trigger] before@.remove(key@).dom().contains(
                        k,
                    ) implies self@.dom().contains(k) && self@[k] == before@[k] by {
                        assert(ix0.dom().contains(k));
                        assert(before.slots@[ix0[k] as int].0@ == k);
                    }
                    assert(self@ =~= before@.remove(key@));
                }
                Some(gone.1)
            },
            None => {
                assert(indexed(self.index) =~= indexed(before.index));
                assert(self@ =~= before@.remove(key@));
                None
            },
        }
    }

    pub fn len(&self) -> (r: usize)
        requires
            self.inv(),
        ensures
            r == self@.len(),
            self@.dom().finite(),
    {
        proof {
            self.lemma_keys();
        }
        self.slots.len()
    }

    /// The keys in the order of the slots.
    pub closed spec fn keys(self) -> Seq<Seq<char>> {
        self.slots@.map_values(|s: (String, V)| s.0@)
    }

    /// Every key of the map stands in its list of keys once.
    pub proof fn lemma_keys(self)
        requires
            self.inv(),
        ensures
            self.keys().no_duplicates(),
            self.keys().to_set() == self@.dom(),
            self.keys().len() == self@.len(),
            self@.dom().finite(),
    {
        let ks = self.keys();
        let ix = indexed(self.index);
        assert forall|i: int, j: int| 0 <= i < ks.len() && 0 <= j < ks.len() && i != j implies ks[i]
            != ks[j] by {
            assert(ix.dom().contains(self.slots@[i].0@));
            assert(ix.dom().contains(self.slots@[j].0@));
        }
        assert forall|k: Seq<char>| ks.to_set().contains(k) == #[trigger] self@.dom().contains(k) by {
            if self@.dom().contains(k) {
                assert(ks[ix[k] as int] == k);
            }
            if ks.contains(k) {
                let i = choose|i: int| 0 <= i < ks.len() && ks[i] == k;
                assert(ix.dom().contains(self.slots@[i].0@));
            }
        }
        assert(ks.to_set() =~= self@.dom());
        ks.unique_seq_to_set();
    }

    /// The `i`-th entry.
    pub fn entry(&self, i: usize) -> (r: (&str, &V))
        requires
            self.inv(),
            i < self.keys().len(),
        ensures
            r.0@ == self.keys()[i as int],
            self@.contains_pair(r.0@, *r.1),
    {
        let slot = &self.slots[i];
        assert(indexed(self.index).dom().contains(self.slots@[i as int].0@));
        (slot.0.as_str(), &slot.1)
    }

    /// Copies of the keys.
    pub fn key_list(&self) -> (r: Vec<String>)
        requires
            self.inv(),
        ensures
            r@.map_values(|s: String| s@) == self.keys(),
    {
        let mut out: Vec<String> = Vec::new();
        let mut i: usize = 0;
        while i < self.slots.len()
            invariant
                i <= self.slots@.len(),
                out@.map_values(|s: String| s@) =~= self.keys().take(i as int),
            decreases self.slots@.len() - i,
        {
            let ghost prior = out@;
            out.push(self.slots[i].0.clone());
            assert(out@.map_values(|s: String| s@) =~= prior.map_values(|s: String| s@).push(
                self.keys()[i as int],
            ));
            i = i + 1;
        }
        assert(self.keys().take(i as int) =~= self.keys());
        out
    }

    /// A way to change what stands under `key`.
    pub fn get_mut(&mut self, key: &str) -> (r: Option<&mut V>)
        requires
            old(self).inv(),
        ensures
            match r {
                Some(v) => {
                    &&& old(self)@.dom().contains(key@)
                    &&& *v == old(self)@[key@]
                    &&& final(self).inv()
                    &&& final(self)@ == old(self)@.insert(key@, *final(v))
                },
                None => !old(self)@.dom().contains(key@) && *final(self) == *old(self),
            },
    {
        match index_get(&self.index, key) {
            Some(i) => Some(&mut self.slots[i].1),
            None => None,
        }
    }
}

/// Keys in strictly ascending order.
pub open spec fn ascending(p: Seq<(Seq<char>, Seq<char>)>) -> bool {
    forall|i: int, j: int| 0 <= i < j < p.len() ==> text_less(#[trigger] p[i].0, #[trigger] p[j].0)
}

pub open spec fn has_key(p: Seq<(Seq<char>, Seq<char>)>, k: Seq<char>) -> bool {
    exists|i: int| 0 <= i < p.len() && #[trigger] p[i].0 == k
}

/// The map that a list of pairs stands for.
pub open spec fn map_of(p: Seq<(Seq<char>, Seq<char>)>) -> Map<Seq<char>, Seq<char>> {
    Map::new(
        |k: Seq<char>| has_key(p, k),
        |k: Seq<char>| p[choose|i: int| 0 <= i < p.len() && #[trigger] p[i].0 == k].1,
    )
}

/// The pairs of a map in the order of their keys.
pub open spec fn sorted_pairs(m: Map<Seq<char>, Seq<char>>) -> Seq<(Seq<char>, Seq<char>)> {
    choose|p: Seq<(Seq<char>, Seq<char>)>| ascending(p) && #[trigger] map_of(p) == m
}

pub proof fn lemma_map_of(p: Seq<(Seq<char>, Seq<char>)>)
    requires
        ascending(p),
    ensures
        forall|i: int|
            #![trigger p[i]]
            0 <= i < p.len() ==> map_of(p).dom().contains(p[i].0) && map_of(p)[p[i].0] == p[i].1,
{
    assert forall|i: int| #![trigger p[i]] 0 <= i < p.len() implies map_of(p).dom().contains(p[i].0)
        && map_of(p)[p[i].0] == p[i].1 by {
        let k = p[i].0;
        let j = choose|j: int| 0 <= j < p.len() && #[trigger] p[j].0 == k;
        lemma_text_order(k, k);
        if i < j {
            assert(text_less(p[i].0, p[j].0));
        } else if j < i {
            assert(text_less(p[j].0, p[i].0));
        }
    }
}

/// A map has one ascending list of pairs.
pub proof fn lemma_sorted_pairs_unique(
    p: Seq<(Seq<char>, Seq<char>)>,
    q: Seq<(Seq<char>, Seq<char>)>,
)
    requires
        ascending(p),
        ascending(q),
        map_of(p) == map_of(q),
    ensures
        p == q,
    decreases p.len(),
{
    lemma_map_of(p);
    lemma_map_of(q);
    if p.len() == 0 {
        if q.len() > 0 {
            assert(map_of(p).dom().contains(q[0].0));
        }
        assert(p =~= q);
    } else {
        assert(map_of(q).dom().contains(p[0].0));
        assert(has_key(q, p[0].0));
        let j = choose|j: int| 0 <= j < q.len() && #[trigger] q[j].0 == p[0].0;
        assert(map_of(p).dom().contains(q[0].0));
        assert(has_key(p, q[0].0));
        let i = choose|i: int| 0 <= i < p.len() && #[trigger] p[i].0 == q[0].0;
        lemma_text_order(p[0].0, q[0].0);
        if j > 0 && i > 0 {
            assert(text_less(q[0].0, q[j].0));
            assert(text_less(p[0].0, p[i].0));
        }
        assert(p[0].0 == q[0].0);
        assert(p[0] == q[0]);
        let p1 = p.drop_first();
        let q1 = q.drop_first();
        lemma_map_of(p1);
        lemma_map_of(q1);
        assert forall|k: Seq<char>| #[trigger] map_of(p1).dom().contains(k) implies map_of(
            q1,
        ).dom().contains(k) && map_of(p1)[k] == map_of(q1)[k] by {
            let a = choose|a: int| 0 <= a < p1.len() && #[trigger] p1[a].0 == k;
            assert(p[a + 1].0 == k);
            assert(text_less(p[0].0, p[a + 1].0));
            lemma_text_order(p[0].0, p[0].0);
            assert(map_of(q).dom().contains(k));
            let b = choose|b: int| 0 <= b < q.len() && #[trigger] q[b].0 == k;
            assert(b > 0);
            assert(q1[b - 1].0 == k);
            assert(p1[a] == p[a + 1]);
            assert(q1[b - 1] == q[b]);
        }
        assert forall|k: Seq<char>| #[trigger] map_of(q1).dom().contains(k) implies map_of(
            p1,
        ).dom().contains(k) by {
            let b = choose|b: int| 0 <= b < q1.len() && #[trigger] q1[b].0 == k;
            assert(q[b + 1].0 == k);
            assert(text_less(q[0].0, q[b + 1].0));
            lemma_text_order(q[0].0, q[0].0);
            assert(map_of(p).dom().contains(k));
            let a = choose|a: int| 0 <= a < p.len() && #[trigger] p[a].0 == k;
            assert(a > 0);
            assert(p1[a - 1].0 == k);
        }
        assert(map_of(p1) =~= map_of(q1));
        lemma_sorted_pairs_unique(p1, q1);
        assert(p =~= seq![p[0]] + p1);
        assert(q =~= seq![q[0]] + q1);
    }
}

/// Named texts in the order of their names.
#[derive(Debug)]
pub struct Headers {
    pairs: Vec<(String, String)>,
}

impl View for Headers {
    type V = Map<Seq<char>, Seq<char>>;

    closed spec fn view(&self) -> Map<Seq<char>, Seq<char>> {
        map_of(self.list())
    }
}

impl Headers {
    closed spec fn list(self) -> Seq<(Seq<char>, Seq<char>)> {
        self.pairs@.map_values(|p: (String, String)| (p.0@, p.1@))
    }

    pub closed spec fn inv(self) -> bool {
        ascending(self.list())
    }

    pub fn new() -> (r: Self)
        ensures
            r.inv(),
            r@ == Map::<Seq<char>, Seq<char>>::empty(),
    {
        let r = Headers { pairs: Vec::new() };
        assert(r@ =~= Map::<Seq<char>, Seq<char>>::empty());
        r
    }

    pub fn len(&self) -> (r: usize)
        requires
            self.inv(),
        ensures
            r == sorted_pairs(self@).len(),
    {
        proof {
            self.lemma_list();
        }
        self.pairs.len()
    }

    /// The map of a header has a list in the order of the names.
    pub proof fn lemma_listable(self)
        requires
            self.inv(),
        ensures
            exists|p: Seq<(Seq<char>, Seq<char>)>| ascending(p) && #[trigger] map_of(p) == self@,
    {
        assert(ascending(self.list()) && map_of(self.list()) == self@);
    }

    proof fn lemma_list(self)
        requires
            self.inv(),
        ensures
            self.list() == sorted_pairs(self@),
    {
        let p = self.list();
        assert(ascending(p) && map_of(p) == self@);
        lemma_sorted_pairs_unique(p, sorted_pairs(self@));
    }

    /// The `i`-th pair in the order of the names.
    pub fn pair(&self, i: usize) -> (r: (&str, &str))
        requires
            self.inv(),
            i < sorted_pairs(self@).len(),
        ensures
            (r.0@, r.1@) == sorted_pairs(self@)[i as int],
    {
        proof {
            self.lemma_list();
        }
        let p = &self.pairs[i];
        (p.0.as_str(), p.1.as_str())
    }

    /// First position whose name does not come before `name`.
    fn position(&self, name: &str) -> (r: usize)
        requires
            self.inv(),
        ensures
            r <= self.list().len(),
            forall|i: int| 0 <= i < r ==> text_less(#[trigger] self.list()[i].0, name@),
            forall|i: int| r <= i < self.list().len() ==> !text_less(#[trigger] self.list()[i].0, name@),
    {
        let mut i: usize = 0;
        while i < self.pairs.len() && is_less(self.pairs[i].0.as_str(), name)
            invariant
                self.inv(),
                i <= self.pairs@.len(),
                forall|j: int| 0 <= j < i ==> text_less(#[trigger] self.list()[j].0, name@),
            decreases self.pairs@.len() - i,
        {
            i = i + 1;
        }
        proof {
            let p = self.list();
            assert forall|j: int| i <= j < p.len() implies !text_less(#[trigger] p[j].0, name@) by {
                if text_less(p[j].0, name@) && i < j {
                    assert(text_less(p[i as int].0, p[j].0));
                    lemma_text_less_transitive(p[i as int].0, p[j].0, name@);
                }
            }
        }
        i
    }

    pub fn get(&self, name: &str) -> (r: Option<&str>)
        requires
            self.inv(),
        ensures
            match r {
                Some(v) => self@.contains_pair(name@, v@),
                None => !self@.dom().contains(name@),
            },
    {
        let i = self.position(name);
        proof {
            let p = self.list();
            lemma_map_of(p);
            lemma_text_order(name@, name@);
        }
        if i < self.pairs.len() && text_eq(self.pairs[i].0.as_str(), name) {
            assert(self.list()[i as int].0 == name@);
            Some(self.pairs[i].1.as_str())
        } else {
            proof {
                let p = self.list();
                if has_key(p, name@) {
                    let j = choose|j: int| 0 <= j < p.len() && #[trigger] p[j].0 == name@;
                    lemma_text_order(p[i as int].0, name@);
                    if i < j {
                        assert(text_less(p[i as int].0, p[j].0));
                    }
                }
            }
            None
        }
    }

    /// Puts `value` under `name`, in place of what stood there.
    pub fn insert(&mut self, name: &str, value: &str)
        requires
            old(self).inv(),
        ensures
            final(self).inv(),
            final(self)@ == old(self)@.insert(name@, value@),
    {
        let i = self.position(name);
        let ghost p0 = self.list();
        proof {
            lemma_map_of(p0);
            lemma_text_order(name@, name@);
        }
        let found: bool = i < self.pairs.len() && text_eq(self.pairs[i].0.as_str(), name);
        if found {
            self.pairs[i] = (name.to_owned(), value.to_owned());
            assert(self.list() =~= p0.update(i as int, (name@, value@)));
            assert(p0[i as int].0 == name@);
        } else {
            self.pairs.insert(i, (name.to_owned(), value.to_owned()));
            assert(self.list() =~= p0.insert(i as int, (name@, value@)));
        }
        proof {
            let p = self.list();
            assert forall|a: int, b: int| 0 <= a < b < p.len() implies text_less(
                #[trigger] p[a].0,
                #[trigger] p[b].0,
            ) by {
                if !found {
                    lemma_text_order(p0[i as int].0, name@);
                    if a == i {
                        assert(p[b] == p0[b - 1]);
                        if b - 1 > i {
                            assert(text_less(p0[i as int].0, p0[b - 1].0));
                            if name@ != p0[i as int].0 {
                                lemma_text_less_transitive(name@, p0[i as int].0, p0[b - 1].0);
                            }
                        }
                    } else if b == i {
                        assert(p[a] == p0[a]);
                    } else if a < i && b > i {
                        assert(p[a] == p0[a] && p[b] == p0[b - 1]);
                    } else if a > i {
                        assert(p[a] == p0[a - 1] && p[b] == p0[b - 1]);
                    } else {
                        assert(p[a] == p0[a] && p[b] == p0[b]);
                    }
                } else {
                    assert(p[a].0 == p0[a].0);
                    assert(p[b].0 == p0[b].0);
                }
            }
            lemma_map_of(p);
            assert forall|k: Seq<char>| #[trigger] map_of(p).dom().contains(k) == (k == name@
                || map_of(p0).dom().contains(k)) by {
                if map_of(p0).dom().contains(k) {
                    let a = choose|a: int| 0 <= a < p0.len() && #[trigger] p0[a].0 == k;
                    if found || a < i {
                        assert(p[a].0 == k);
                    } else {
                        assert(p[a + 1].0 == k);
                    }
                }
                if k == name@ {
                    assert(p[i as int].0 == k);
                }
                if map_of(p).dom().contains(k) && k != name@ {
                    let a = choose|a: int| 0 <= a < p.len() && #[trigger] p[a].0 == k;
                    if found || a < i {
                        assert(p0[a].0 == k);
                    } else {
                        assert(p0[a - 1].0 == k);
                    }
                }
            }
            assert forall|k: Seq<char>| #[trigger] map_of(p).dom().contains(k) implies map_of(p)[k]
                == map_of(p0).insert(name@, value@)[k] by {
                let a = choose|a: int| 0 <= a < p.len() && #[trigger] p[a].0 == k;
                assert(p[a].0 == k);
                if a == i {
                    assert(p[a] == (name@, value@));
                } else {
                    let b = if found || a < i { a } else { a - 1 };
                    assert(p0[b] == p[a]);
                    if k == name@ {
                        if a < i {
                            assert(text_less(p[a].0, p[i as int].0));
                        } else {
                            assert(text_less(p[i as int].0, p[a].0));
                        }
                    }
                }
            }
            assert(map_of(p) =~= map_of(p0).insert(name@, value@));
        }
    }

    /// Takes `name` out.
    pub fn remove(&mut self, name: &str)
        requires
            old(self).inv(),
        ensures
            final(self).inv(),
            final(self)@ == old(self)@.remove(name@),
    {
        let i = self.position(name);
        let ghost p0 = self.list();
        proof {
            lemma_map_of(p0);
            lemma_text_order(name@, name@);
        }
        if i < self.pairs.len() && text_eq(self.pairs[i].0.as_str(), name) {
            self.pairs.remove(i);
            assert(self.list() =~= p0.remove(i as int));
            proof {
                let p = self.list();
                assert(p0[i as int].0 == name@);
                assert forall|a: int, b: int| 0 <= a < b < p.len() implies text_less(
                    #[trigger] p[a].0,
                    #[trigger] p[b].0,
                ) by {
                    let c = if a < i { a } else { a + 1 };
                    let d = if b < i { b } else { b + 1 };
                    assert(p[a] == p0[c] && p[b] == p0[d]);
                }
                lemma_map_of(p);
                assert forall|k: Seq<char>| #[trigger] map_of(p).dom().contains(k) == (k != name@
                    && map_of(p0).dom().contains(k)) by {
                    if map_of(p).dom().contains(k) {
                        let a = choose|a: int| 0 <= a < p.len() && #[trigger] p[a].0 == k;
                        let c = if a < i { a } else { a + 1 };
                        assert(p0[c].0 == k);
                        if c < i {
                            assert(text_less(p0[c].0, p0[i as int].0));
                        } else {
                            assert(text_less(p0[i as int].0, p0[c].0));
                        }
                    }
                    if k != name@ && map_of(p0).dom().contains(k) {
                        let c = choose|c: int| 0 <= c < p0.len() && #[trigger] p0[c].0 == k;
                        let a = if c < i { c } else { c - 1 };
                        assert(p[a].0 == k);
                    }
                }
                assert forall|k: Seq<char>| #[trigger] map_of(p).dom().contains(k) implies map_of(p)[k]
                    == map_of(p0)[k] by {
                    let a = choose|a: int| 0 <= a < p.len() && #[trigger] p[a].0 == k;
                    let c = if a < i { a } else { a + 1 };
                    assert(p[a] == p0[c]);
                }
                assert(map_of(p) =~= map_of(p0).remove(name@));
            }
        } else {
            proof {
                if has_key(p0, name@) {
                    let j = choose|j: int| 0 <= j < p0.len() && #[trigger] p0[j].0 == name@;
                    lemma_text_order(p0[i as int].0, name@);
                    if i < j {
                        assert(text_less(p0[i as int].0, p0[j].0));
                    }
                }
                assert(map_of(p0) =~= map_of(p0).remove(name@));
            }
        }
    }
}

} // verus!
