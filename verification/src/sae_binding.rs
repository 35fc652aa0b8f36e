//! Which node an application entity belongs to.
use crate::error::DkmsError;
use crate::ids::{NodeId, SaeId};
use crate::table::Table;
use crate::text::chars_of;
use vstd::prelude::*;
use vstd::string::*;

verus! {

/// A fixed list of entities and their nodes.
pub struct StaticSaeResolver {
    map: Table<NodeId>,
}

pub open spec fn node_views(m: Map<Seq<char>, NodeId>) -> Map<Seq<char>, Seq<char>> {
    Map::new(|s: Seq<char>| m.dom().contains(s), |s: Seq<char>| m[s]@)
}

/// What a list of bindings says: of two for one entity, the later one.
pub open spec fn bindings(entries: Seq<(SaeId, NodeId)>) -> Map<Seq<char>, Seq<char>>
    decreases entries.len(),
{
    if entries.len() == 0 {
        Map::empty()
    } else {
        bindings(entries.drop_last()).insert(entries.last().0@, entries.last().1@)
    }
}

impl View for StaticSaeResolver {
    type V = Map<Seq<char>, Seq<char>>;

    closed spec fn view(&self) -> Map<Seq<char>, Seq<char>> {
        node_views(self.map@)
    }
}

impl StaticSaeResolver {
    pub closed spec fn inv(self) -> bool {
        self.map.inv()
    }

    pub fn new() -> (r: Self)
        ensures
            r.inv(),
            r@ == Map::<Seq<char>, Seq<char>>::empty(),
    {
        let r = StaticSaeResolver { map: Table::new() };
        assert(r@ =~= Map::<Seq<char>, Seq<char>>::empty());
        r
    }

    pub fn with_entries(entries: &Vec<(SaeId, NodeId)>) -> (r: Self)
        ensures
            r.inv(),
            r@ == bindings(entries@),
    {
        let mut me = StaticSaeResolver::new();
        let n: usize = entries.len();
        let mut i: usize = 0;
        while i < n
            invariant
                n == entries@.len(),
                i <= n,
                me.inv(),
                me@ == bindings(entries@.take(i as int)),
            decreases n - i,
        {
            assert(entries@.take(i + 1).drop_last() =~= entries@.take(i as int));
            me.insert(&entries[i].0, &entries[i].1);
            i = i + 1;
        }
        assert(entries@.take(n as int) =~= entries@);
        me
    }

    pub fn insert(&mut self, sae: &SaeId, node: &NodeId)
        requires
            old(self).inv(),
        ensures
            final(self).inv(),
            final(self)@ == old(self)@.insert(sae@, node@),
    {
        let ghost before = self@;
        self.map.insert(sae.as_str(), node.copy());
        assert(self@ =~= before.insert(sae@, node@));
    }

    pub fn resolve(&self, sae: &SaeId) -> (r: Result<NodeId, DkmsError>)
        requires
            self.inv(),
        ensures
            match r {
                Ok(n) => self@.contains_pair(sae@, n@),
                Err(e) => !self@.dom().contains(sae@) && (
                e matches DkmsError::SaeBindingLookupFailed(s) && s@ == sae@),
            },
    {
        match self.map.get(sae.as_str()) {
            Some(n) => Ok(n.copy()),
            None => Err(DkmsError::SaeBindingLookupFailed(sae.copy())),
        }
    }
}

/// The node that the network controller names for an entity. A controller that
/// cannot be asked, or that names none, does not know the entity.
pub fn sdn_binding(sae: &SaeId, dkms_id: Option<&str>) -> (r: Result<NodeId, DkmsError>)
    ensures
        match r {
            Ok(n) => dkms_id matches Some(d) && d@.len() > 0 && n@ == d@,
            Err(e) => (dkms_id matches Some(d) ==> d@.len() == 0) && (
            e matches DkmsError::SaeBindingLookupFailed(s) && s@ == sae@),
        },
{
    match dkms_id {
        Some(d) => if chars_of(d).len() > 0 {
            Ok(NodeId::new(d))
        } else {
            Err(DkmsError::SaeBindingLookupFailed(sae.copy()))
        },
        None => Err(DkmsError::SaeBindingLookupFailed(sae.copy())),
    }
}

/// Whatever kept an entity from being found, the answer is that it was not.
pub fn lookup_failure(e: &DkmsError, sae: &SaeId) -> (r: DkmsError)
    ensures
        r matches DkmsError::SaeBindingLookupFailed(s) && s@ == (match *e {
            DkmsError::SaeBindingLookupFailed(other) => other@,
            _ => sae@,
        }),
{
    match e {
        DkmsError::SaeBindingLookupFailed(s) => DkmsError::SaeBindingLookupFailed(s.copy()),
        _ => DkmsError::SaeBindingLookupFailed(sae.copy()),
    }
}

/// How long a binding is remembered, in seconds.
pub fn binding_ttl_secs(ttl_secs: u64) -> (r: u64)
    ensures
        r == (if ttl_secs == 0 {
            1
        } else {
            ttl_secs
        }),
{
    if ttl_secs == 0 {
        1
    } else {
        ttl_secs
    }
}

/// The last binding of an entity is the one that holds, and one without any has no
/// node.
pub proof fn last_binding_holds(entries: Seq<(SaeId, NodeId)>, sae: Seq<char>, i: int)
    ensures
        0 <= i < entries.len() && entries[i].0@ == sae && (forall|j: int|
            i < j < entries.len() ==> (#[trigger] entries[j]).0@ != sae) ==> bindings(
            entries,
        ).contains_pair(sae, entries[i].1@),
        (forall|j: int| 0 <= j < entries.len() ==> (#[trigger] entries[j]).0@ != sae) ==> !bindings(
            entries,
        ).dom().contains(sae),
    decreases entries.len(),
{
    if entries.len() > 0 {
        let init = entries.drop_last();
        let n = init.len() as int;
        last_binding_holds(init, sae, i);
        assert(entries[n] == entries.last());
        assert forall|j: int| 0 <= j < n implies (#[trigger] init[j]) == entries[j] by {}
        if forall|j: int| i < j < entries.len() ==> (#[trigger] entries[j]).0@ != sae {
            assert forall|j: int| i < j < n && 0 <= j implies (#[trigger] init[j]).0@ != sae by {
                assert(entries[j].0@ != sae);
            }
        }
        if forall|j: int| 0 <= j < entries.len() ==> (#[trigger] entries[j]).0@ != sae {
            assert forall|j: int| 0 <= j < n implies (#[trigger] init[j]).0@ != sae by {
                assert(entries[j].0@ != sae);
            }
        }
    }
}

} // verus!
