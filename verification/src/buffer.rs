//! Keys that wait to be read by a pair of application entities.
use crate::table::Table;
use vstd::prelude::*;
use vstd::string::*;

verus! {

#[derive(Debug, Clone)]
pub struct BufferedKey {
    pub id: String,
    pub bytes: Vec<u8>,
    pub size_bits: u32,
}

#[verifier::ext_equal]
pub struct BufferedView {
    pub id: Seq<char>,
    pub bytes: Seq<u8>,
    pub size_bits: u32,
}

impl View for BufferedKey {
    type V = BufferedView;

    open spec fn view(&self) -> BufferedView {
        BufferedView { id: self.id@, bytes: self.bytes@, size_bits: self.size_bits }
    }
}

pub open spec fn buffered_views(v: Seq<BufferedKey>) -> Seq<BufferedView> {
    v.map_values(|k: BufferedKey| k@)
}

/// The keys of each local entity for each remote one, in the order in which they
/// came.
pub type Queues = Map<Seq<char>, Map<Seq<char>, Seq<BufferedView>>>;

/// The keys of one pair.
pub open spec fn queue_of(m: Queues, local: Seq<char>, remote: Seq<char>) -> Seq<BufferedView> {
    if m.dom().contains(local) && m[local].dom().contains(remote) {
        m[local][remote]
    } else {
        Seq::empty()
    }
}

spec fn row_view(m: Map<Seq<char>, Vec<BufferedKey>>) -> Map<Seq<char>, Seq<BufferedView>> {
    Map::new(|r: Seq<char>| m.dom().contains(r), |r: Seq<char>| buffered_views(m[r]@))
}

pub struct BufferRegistry {
    rows: Table<Table<Vec<BufferedKey>>>,
}

impl View for BufferRegistry {
    type V = Queues;

    closed spec fn view(&self) -> Queues {
        Map::new(
            |l: Seq<char>| self.rows@.dom().contains(l),
            |l: Seq<char>| row_view(self.rows@[l]@),
        )
    }
}

impl BufferRegistry {
    pub closed spec fn inv(self) -> bool {
        &&& self.rows.inv()
        &&& forall|l: Seq<char>| #[trigger] self.rows@.dom().contains(l) ==> self.rows@[l].inv()
    }

    pub fn new() -> (r: Self)
        ensures
            r.inv(),
            r@ == Map::<Seq<char>, Map<Seq<char>, Seq<BufferedView>>>::empty(),
    {
        let r = BufferRegistry { rows: Table::new() };
        assert(r@ =~= Map::<Seq<char>, Map<Seq<char>, Seq<BufferedView>>>::empty());
        r
    }

    /// Takes the queue of a pair out.
    fn take_queue(&mut self, local: &str, remote: &str) -> (r: Vec<BufferedKey>)
        requires
            old(self).inv(),
        ensures
            final(self).inv(),
            buffered_views(r@) == queue_of(old(self)@, local@, remote@),
            queue_of(final(self)@, local@, remote@) == Seq::<BufferedView>::empty(),
            forall|l: Seq<char>, q: Seq<char>|
                (l != local@ || q != remote@) ==> #[trigger] queue_of(final(self)@, l, q)
                    == queue_of(old(self)@, l, q),
    {
        let ghost before = self@;
        let mut row = match self.rows.remove(local) {
            Some(w) => w,
            None => Table::new(),
        };
        let ghost row0 = row@;
        let queue = match row.remove(remote) {
            Some(q) => q,
            None => Vec::new(),
        };
        self.rows.insert(local, row);
        proof {
            assert(buffered_views(queue@) =~= queue_of(before, local@, remote@));
            assert forall|l: Seq<char>, q: Seq<char>| (l != local@ || q
                != remote@) implies #[trigger] queue_of(self@, l, q) == queue_of(before, l, q) by {
                assert(queue_of(self@, l, q) =~= queue_of(before, l, q));
            }
        }
        queue
    }

    fn put_queue(&mut self, local: &str, remote: &str, queue: Vec<BufferedKey>)
        requires
            old(self).inv(),
        ensures
            final(self).inv(),
            queue_of(final(self)@, local@, remote@) == buffered_views(queue@),
            forall|l: Seq<char>, q: Seq<char>|
                (l != local@ || q != remote@) ==> #[trigger] queue_of(final(self)@, l, q)
                    == queue_of(old(self)@, l, q),
    {
        let ghost before = self@;
        let mut row = match self.rows.remove(local) {
            Some(w) => w,
            None => Table::new(),
        };
        let ghost row0 = row@;
        row.insert(remote, queue);
        self.rows.insert(local, row);
        proof {
            assert forall|l: Seq<char>, q: Seq<char>| (l != local@ || q
                != remote@) implies #[trigger] queue_of(self@, l, q) == queue_of(before, l, q) by {
                assert(queue_of(self@, l, q) =~= queue_of(before, l, q));
            }
        }
    }

    /// Puts keys behind those that a pair has.
    pub fn push(&mut self, local: &str, remote: &str, keys: Vec<BufferedKey>)
        requires
            old(self).inv(),
        ensures
            final(self).inv(),
            queue_of(final(self)@, local@, remote@) == queue_of(old(self)@, local@, remote@)
                + buffered_views(keys@),
            forall|l: Seq<char>, q: Seq<char>|
                (l != local@ || q != remote@) ==> #[trigger] queue_of(final(self)@, l, q)
                    == queue_of(old(self)@, l, q),
    {
        let mut queue = self.take_queue(local, remote);
        let ghost q0 = queue@;
        let ghost added = keys@;
        let mut keys = keys;
        queue.append(&mut keys);
        assert(buffered_views(queue@) =~= buffered_views(q0) + buffered_views(added));
        self.put_queue(local, remote, queue);
    }

    /// Takes the oldest keys of a pair, `count` of them or as many as there are.
    pub fn take(&mut self, local: &str, remote: &str, count: usize) -> (r: Vec<BufferedKey>)
        requires
            old(self).inv(),
        ensures
            final(self).inv(),
            ({
                let before = queue_of(old(self)@, local@, remote@);
                let n = if count <= before.len() {
                    count as int
                } else {
                    before.len() as int
                };
                &&& buffered_views(r@) == before.take(n)
                &&& queue_of(final(self)@, local@, remote@) == before.skip(n)
            }),
            forall|l: Seq<char>, q: Seq<char>|
                (l != local@ || q != remote@) ==> #[trigger] queue_of(final(self)@, l, q)
                    == queue_of(old(self)@, l, q),
    {
        let mut queue = self.take_queue(local, remote);
        let ghost q0 = buffered_views(queue@);
        let n: usize = if count <= queue.len() { count } else { queue.len() };
        let rest = queue.split_off(n);
        assert(buffered_views(queue@) =~= q0.take(n as int));
        assert(buffered_views(rest@) =~= q0.skip(n as int));
        self.put_queue(local, remote, rest);
        queue
    }

    pub fn len(&self, local: &str, remote: &str) -> (r: usize)
        requires
            self.inv(),
        ensures
            r == queue_of(self@, local@, remote@).len(),
    {
        match self.rows.get(local) {
            Some(row) => match row.get(remote) {
                Some(q) => q.len(),
                None => 0,
            },
            None => 0,
        }
    }
}

} // verus!
