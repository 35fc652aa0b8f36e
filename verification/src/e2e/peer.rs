//! What is kept of one peer: the epochs agreed with it and how fresh it is.
use crate::crypto::frame_mac::{
    window_stays_well_formed, ReplayError, ReplayWindow, SessionAdopt, WindowView,
};
use crate::crypto::primitives::random_u32;
use vstd::prelude::*;
use vstd::set_lib::*;

verus! {

#[verifier::ext_equal]
pub struct PeerView {
    /// Shared secrets by epoch, the newest last.
    pub epochs: Seq<(u32, Seq<u8>)>,
    /// Epoch that payloads to the peer are sealed with.
    pub send_epoch: Option<u32>,
    /// Number of payloads sealed for the peer.
    pub counter: u64,
    /// Freshness of what comes from the peer.
    pub replay: WindowView,
    /// Secret key of an agreement that was asked for, and since when.
    pub pending_esk: Option<(Seq<u8>, u64)>,
    pub inflight: bool,
    pub last_attempt: Option<u64>,
    pub established_at: Option<u64>,
}

/// The secret under the first entry of `epoch`.
pub open spec fn find_secret(epochs: Seq<(u32, Seq<u8>)>, epoch: u32) -> Option<Seq<u8>>
    decreases epochs.len(),
{
    if epochs.len() == 0 {
        None
    } else if epochs[0].0 == epoch {
        Some(epochs[0].1)
    } else {
        find_secret(epochs.drop_first(), epoch)
    }
}

/// The last `n` entries.
pub open spec fn newest<T>(s: Seq<T>, n: int) -> Seq<T> {
    if s.len() > n {
        s.skip(s.len() - n)
    } else {
        s
    }
}

pub open spec fn without_epoch(epochs: Seq<(u32, Seq<u8>)>, epoch: u32) -> Seq<(u32, Seq<u8>)>
    decreases epochs.len(),
{
    if epochs.len() == 0 {
        Seq::empty()
    } else if epochs.last().0 == epoch {
        without_epoch(epochs.drop_last(), epoch)
    } else {
        without_epoch(epochs.drop_last(), epoch).push(epochs.last())
    }
}

/// How many epochs are kept: the configured number, but one at least.
pub open spec fn kept(keep: usize) -> int {
    if keep < 1 {
        1
    } else {
        keep as int
    }
}

impl PeerView {
    pub open spec fn fresh(window: u64) -> PeerView {
        PeerView {
            epochs: Seq::empty(),
            send_epoch: None,
            counter: 0,
            replay: WindowView::empty(window, SessionAdopt::Any),
            pending_esk: None,
            inflight: false,
            last_attempt: None,
            established_at: None,
        }
    }

    pub open spec fn secret(self, epoch: u32) -> Option<Seq<u8>> {
        find_secret(self.epochs, epoch)
    }

    pub open spec fn knows(self, epoch: u32) -> bool {
        exists|i: int| 0 <= i < self.epochs.len() && #[trigger] self.epochs[i].0 == epoch
    }

    /// The peer once `secret` was agreed for `epoch`: the oldest epochs beyond
    /// the history are dropped, and payloads are sealed with the new one.
    pub open spec fn stored(self, epoch: u32, secret: Seq<u8>, keep: usize, now_ns: u64) -> PeerView {
        PeerView {
            epochs: newest(without_epoch(self.epochs, epoch).push((epoch, secret)), kept(keep)),
            send_epoch: Some(epoch),
            established_at: Some(now_ns),
            ..self
        }
    }

    /// Epochs are told apart and the one to send with is among them; secrets are
    /// of 32 bytes.
    pub open spec fn wf(self) -> bool {
        &&& self.replay.wf()
        &&& self.replay.adopt == SessionAdopt::Any
        &&& forall|i: int, j: int|
            0 <= i < j < self.epochs.len() ==> #[trigger] self.epochs[i].0
                != #[trigger] self.epochs[j].0
        &&& forall|i: int| 0 <= i < self.epochs.len() ==> #[trigger] self.epochs[i].1.len() == 32
        &&& self.send_epoch matches Some(e) ==> self.knows(e)
    }
}

proof fn lemma_find(epochs: Seq<(u32, Seq<u8>)>, epoch: u32)
    ensures
        find_secret(epochs, epoch) is Some <==> exists|i: int|
            0 <= i < epochs.len() && #[trigger] epochs[i].0 == epoch,
        find_secret(epochs, epoch) matches Some(s) ==> exists|i: int|
            0 <= i < epochs.len() && #[trigger] epochs[i] == (epoch, s),
    decreases epochs.len(),
{
    if epochs.len() > 0 {
        let rest = epochs.drop_first();
        lemma_find(rest, epoch);
        if epochs[0].0 == epoch {
            assert(epochs[0] == (epoch, epochs[0].1));
        } else {
            if exists|i: int| 0 <= i < epochs.len() && #[trigger] epochs[i].0 == epoch {
                let i = choose|i: int| 0 <= i < epochs.len() && #[trigger] epochs[i].0 == epoch;
                assert(rest[i - 1].0 == epoch);
            }
            if find_secret(rest, epoch) is Some {
                let s = find_secret(rest, epoch)->0;
                let i = choose|i: int| 0 <= i < rest.len() && #[trigger] rest[i] == (epoch, s);
                assert(epochs[i + 1] == (epoch, s));
            }
        }
    }
}

/// A known epoch has a secret of 32 bytes; an unknown one has none.
pub proof fn known_epochs_have_a_secret(p: PeerView, epoch: u32)
    requires
        p.wf(),
    ensures
        p.knows(epoch) <==> p.secret(epoch) is Some,
        p.secret(epoch) matches Some(s) ==> s.len() == 32,
{
    lemma_find(p.epochs, epoch);
    if p.secret(epoch) is Some {
        let s = p.secret(epoch)->0;
        let i = choose|i: int| 0 <= i < p.epochs.len() && #[trigger] p.epochs[i] == (epoch, s);
        assert(p.epochs[i].1.len() == 32);
    }
}

proof fn lemma_without(epochs: Seq<(u32, Seq<u8>)>, epoch: u32)
    requires
        forall|i: int, j: int|
            0 <= i < j < epochs.len() ==> #[trigger] epochs[i].0 != #[trigger] epochs[j].0,
        forall|i: int| 0 <= i < epochs.len() ==> #[trigger] epochs[i].1.len() == 32,
    ensures
        ({
            let w = without_epoch(epochs, epoch);
            &&& w.len() <= epochs.len()
            &&& forall|i: int, j: int| 0 <= i < j < w.len() ==> #[trigger] w[i].0 != #[trigger] w[j].0
            &&& forall|i: int| 0 <= i < w.len() ==> #[trigger] w[i].1.len() == 32
            &&& forall|i: int| 0 <= i < w.len() ==> #[trigger] w[i].0 != epoch
            &&& forall|i: int| 0 <= i < w.len() ==> epochs.contains(#[trigger] w[i])
        }),
    decreases epochs.len(),
{
    if epochs.len() > 0 {
        let front = epochs.drop_last();
        lemma_without(front, epoch);
        let wf = without_epoch(front, epoch);
        let w = without_epoch(epochs, epoch);
        assert forall|i: int| 0 <= i < w.len() implies epochs.contains(#[trigger] w[i]) by {
            if i < wf.len() {
                assert(wf[i] == w[i]);
                let k = choose|k: int| 0 <= k < front.len() && front[k] == wf[i];
                assert(epochs[k] == w[i]);
            } else {
                assert(epochs[epochs.len() - 1] == w[i]);
            }
        }
        assert forall|i: int, j: int| 0 <= i < j < w.len() implies #[trigger] w[i].0
            != #[trigger] w[j].0 by {
            if j == wf.len() {
                assert(wf[i] == w[i]);
                let k = choose|k: int| 0 <= k < front.len() && front[k] == wf[i];
                assert(epochs[k].0 != epochs[epochs.len() - 1].0);
            }
        }
    }
}

/// After an agreement the peer is in order: it seals with the new epoch, holds
/// its secret, and keeps no more epochs than the history allows.
pub proof fn agreement_is_stored(p: PeerView, epoch: u32, secret: Seq<u8>, keep: usize, now_ns: u64)
    requires
        p.wf(),
        secret.len() == 32,
    ensures
        ({
            let q = p.stored(epoch, secret, keep, now_ns);
            &&& q.wf()
            &&& q.send_epoch == Some(epoch)
            &&& q.secret(epoch) == Some(secret)
            &&& q.epochs.len() <= kept(keep)
            &&& q.counter == p.counter
            &&& q.replay == p.replay
        }),
{
    lemma_without(p.epochs, epoch);
    let w = without_epoch(p.epochs, epoch);
    let longer = w.push((epoch, secret));
    let q = p.stored(epoch, secret, keep, now_ns);
    let n = q.epochs.len() as int;
    let off = longer.len() - n;
    assert forall|i: int| 0 <= i < n implies #[trigger] q.epochs[i] == longer[i + off] by {}
    assert(q.epochs[n - 1] == (epoch, secret));
    assert(q.knows(epoch)) by {
        assert(q.epochs[n - 1].0 == epoch);
    }
    assert forall|i: int, j: int| 0 <= i < j < n implies #[trigger] q.epochs[i].0
        != #[trigger] q.epochs[j].0 by {
        assert(q.epochs[i] == longer[i + off]);
        assert(q.epochs[j] == longer[j + off]);
    }
    lemma_find(q.epochs, epoch);
    let s = q.secret(epoch)->0;
    let k = choose|k: int| 0 <= k < n && #[trigger] q.epochs[k] == (epoch, s);
    if k < n - 1 {
        assert(q.epochs[k].0 != q.epochs[n - 1].0);
    }
}

pub struct PeerState {
    epochs: Vec<(u32, [u8; 32])>,
    send_epoch: Option<u32>,
    counter: u64,
    replay: ReplayWindow,
    pending_esk: Option<(Vec<u8>, u64)>,
    inflight: bool,
    last_attempt: Option<u64>,
    established_at: Option<u64>,
}

spec fn epochs_view(v: Seq<(u32, [u8; 32])>) -> Seq<(u32, Seq<u8>)> {
    v.map_values(|p: (u32, [u8; 32])| (p.0, p.1@))
}

impl View for PeerState {
    type V = PeerView;

    closed spec fn view(&self) -> PeerView {
        PeerView {
            epochs: epochs_view(self.epochs@),
            send_epoch: self.send_epoch,
            counter: self.counter,
            replay: self.replay@,
            pending_esk: match self.pending_esk {
                Some(p) => Some((p.0@, p.1)),
                None => None,
            },
            inflight: self.inflight,
            last_attempt: self.last_attempt,
            established_at: self.established_at,
        }
    }
}

impl PeerState {
    pub closed spec fn inv(self) -> bool {
        self.replay.inv() && self@.wf()
    }

    pub fn new(window: u64) -> (r: Self)
        requires
            window <= usize::MAX,
        ensures
            r.inv(),
            r@ == PeerView::fresh(window),
    {
        let r = PeerState {
            epochs: Vec::new(),
            send_epoch: None,
            counter: 0,
            replay: ReplayWindow::new(window),
            pending_esk: None,
            inflight: false,
            last_attempt: None,
            established_at: None,
        };
        assert(r@.epochs =~= Seq::<(u32, Seq<u8>)>::empty());
        r
    }

    pub proof fn lemma_wf(self)
        requires
            self.inv(),
        ensures
            self@.wf(),
    {
    }

    pub fn send_epoch(&self) -> (r: Option<u32>)
        ensures
            r == self@.send_epoch,
    {
        self.send_epoch
    }

    pub fn epoch_count(&self) -> (r: usize)
        ensures
            r == self@.epochs.len(),
    {
        self.epochs.len()
    }

    pub fn established_at(&self) -> (r: Option<u64>)
        ensures
            r == self@.established_at,
    {
        self.established_at
    }

    pub fn counter(&self) -> (r: u64)
        ensures
            r == self@.counter,
    {
        self.counter
    }

    /// Counts one more payload to the peer.
    pub fn next_counter(&mut self) -> (r: u64)
        requires
            old(self).inv(),
            old(self)@.counter < u64::MAX,
        ensures
            final(self).inv(),
            r == old(self)@.counter + 1,
            final(self)@ == (PeerView { counter: r, ..old(self)@ }),
    {
        self.counter = self.counter + 1;
        self.counter
    }

    /// Whether a payload of the peer is fresh, and marks it as seen.
    pub fn check_fresh(&mut self, session: u64, counter: u64, now_ns: u64) -> (r: Result<
        (),
        ReplayError,
    >)
        requires
            old(self).inv(),
        ensures
            final(self).inv(),
            ({
                let (v, replay) = old(self)@.replay.step(session, counter, now_ns);
                r == v && final(self)@ == (PeerView { replay, ..old(self)@ })
            }),
    {
        proof {
            window_stays_well_formed(self.replay@, session, counter, now_ns);
        }
        let ghost before = self@;
        let r = self.replay.check_and_set_at(session, counter, now_ns);
        assert(self@ =~= (PeerView { replay: self.replay@, ..before }));
        r
    }

    /// Keeps the secret key of an agreement that is asked for.
    pub fn set_pending(&mut self, esk: Vec<u8>, now_ns: u64)
        requires
            old(self).inv(),
        ensures
            final(self).inv(),
            final(self)@ == (PeerView { pending_esk: Some((esk@, now_ns)), ..old(self)@ }),
    {
        self.pending_esk = Some((esk, now_ns));
    }

    pub fn take_pending(&mut self) -> (r: Option<(Vec<u8>, u64)>)
        requires
            old(self).inv(),
        ensures
            final(self).inv(),
            final(self)@ == (PeerView { pending_esk: None, ..old(self)@ }),
            match r {
                Some(p) => old(self)@.pending_esk == Some((p.0@, p.1)),
                None => old(self)@.pending_esk is None,
            },
    {
        self.pending_esk.take()
    }

    /// Marks the start of an agreement, unless one is under way or was tried
    /// less than `min_interval_ns` ago.
    pub fn try_start(&mut self, now_ns: u64, min_interval_ns: u64) -> (r: bool)
        requires
            old(self).inv(),
        ensures
            final(self).inv(),
            r == (!old(self)@.inflight && (old(self)@.last_attempt matches Some(t) ==> now_ns - t
                >= min_interval_ns || min_interval_ns == 0)),
            final(self)@ == (if r {
                PeerView { inflight: true, last_attempt: Some(now_ns), ..old(self)@ }
            } else {
                old(self)@
            }),
    {
        if self.inflight {
            return false;
        }
        if let Some(t) = self.last_attempt {
            if now_ns.saturating_sub(t) < min_interval_ns {
                return false;
            }
        }
        self.inflight = true;
        self.last_attempt = Some(now_ns);
        true
    }

    /// Marks the end of an agreement; a failed one leaves nothing pending.
    pub fn end(&mut self, ok: bool)
        requires
            old(self).inv(),
        ensures
            final(self).inv(),
            final(self)@ == (PeerView {
                inflight: false,
                pending_esk: if ok {
                    old(self)@.pending_esk
                } else {
                    None
                },
                ..old(self)@
            }),
    {
        self.inflight = false;
        if !ok {
            self.pending_esk = None;
        }
    }

    pub fn secret(&self, epoch: u32) -> (r: Option<[u8; 32]>)
        ensures
            match r {
                Some(s) => self@.secret(epoch) == Some(s@),
                None => self@.secret(epoch) is None,
            },
    {
        let ghost e = self@.epochs;
        let mut i: usize = 0;
        assert(e.skip(0) =~= e);
        while i < self.epochs.len()
            invariant
                e == epochs_view(self.epochs@),
                i <= self.epochs@.len(),
                find_secret(e, epoch) == find_secret(e.skip(i as int), epoch),
            decreases self.epochs@.len() - i,
        {
            assert(e.skip(i as int).drop_first() =~= e.skip(i + 1));
            if self.epochs[i].0 == epoch {
                return Some(self.epochs[i].1);
            }
            i = i + 1;
        }
        None
    }

    /// Takes over the secret of an epoch.
    pub fn store(&mut self, epoch: u32, ss: &[u8; 32], keep: usize, now_ns: u64)
        requires
            old(self).inv(),
        ensures
            final(self).inv(),
            final(self)@ == old(self)@.stored(epoch, ss@, keep, now_ns),
            final(self)@.epochs.len() <= kept(keep),
    {
        let ghost before = self@;
        let n: usize = self.epochs.len();
        let mut out: Vec<(u32, [u8; 32])> = Vec::new();
        let mut i: usize = 0;
        let ghost e = before.epochs;
        assert(e.take(0) =~= Seq::<(u32, Seq<u8>)>::empty());
        while i < n
            invariant
                n == self.epochs@.len(),
                e == epochs_view(self.epochs@),
                i <= n,
                out@.len() <= i,
                epochs_view(out@) =~= without_epoch(e.take(i as int), epoch),
            decreases n - i,
        {
            assert(e.take(i + 1).drop_last() =~= e.take(i as int));
            let ghost prior = out@;
            if self.epochs[i].0 != epoch {
                out.push(self.epochs[i]);
                assert(epochs_view(out@) =~= epochs_view(prior).push(e[i as int]));
            }
            i = i + 1;
        }
        assert(e.take(n as int) =~= e);
        out.push((epoch, *ss));
        let ghost longer = without_epoch(e, epoch).push((epoch, ss@));
        assert(epochs_view(out@) =~= longer);
        let limit: usize = if keep < 1 { 1 } else { keep };
        while out.len() > limit
            invariant
                limit >= 1,
                out@.len() <= longer.len(),
                out@.len() >= limit || out@.len() == longer.len(),
                epochs_view(out@) == longer.skip(longer.len() - out@.len()),
            decreases out@.len(),
        {
            let ghost prior = out@;
            out.remove(0);
            assert(out@ =~= prior.drop_first());
            assert(epochs_view(out@) =~= epochs_view(prior).drop_first());
            assert(epochs_view(out@) =~= longer.skip(longer.len() - out@.len()));
        }
        assert(epochs_view(out@) =~= newest(longer, kept(keep)));
        self.epochs = out;
        self.send_epoch = Some(epoch);
        self.established_at = Some(now_ns);
        proof {
            agreement_is_stored(before, epoch, ss@, keep, now_ns);
        }
    }

    /// An epoch that is not in use and not zero, found upwards from a random
    /// number.
    pub fn fresh_epoch(&self) -> (r: u32)
        requires
            self.inv(),
            self@.epochs.len() + 2 <= u32::MAX,
        ensures
            r != 0,
            !self@.knows(r),
    {
        let start: u32 = random_u32();
        let n: usize = self.epochs.len();
        let mut tried: usize = 0;
        let mut e: u32 = start;
        while tried < n + 2
            invariant
                n == self.epochs@.len(),
                n + 2 <= u32::MAX,
                tried <= n + 2,
                e as int == (start + tried) % 0x1_0000_0000,
                forall|i: int|
                    0 <= i < tried ==> #[trigger] self.used_or_zero(
                        ((start + i) % 0x1_0000_0000) as u32,
                    ),
            decreases n + 2 - tried,
        {
            let mut taken: bool = e == 0;
            let mut j: usize = 0;
            while j < n
                invariant
                    n == self.epochs@.len(),
                    j <= n,
                    taken == (e == 0 || exists|i: int|
                        0 <= i < j && #[trigger] self.epochs@[i].0 == e),
                decreases n - j,
            {
                if self.epochs[j].0 == e {
                    taken = true;
                }
                j = j + 1;
            }
            if !taken {
                proof {
                    if self@.knows(e) {
                        let i = choose|i: int|
                            0 <= i < self@.epochs.len() && #[trigger] self@.epochs[i].0 == e;
                        assert(self.epochs@[i].0 == e);
                    }
                }
                return e;
            }
            proof {
                if e != 0 {
                    let i = choose|i: int| 0 <= i < n && #[trigger] self.epochs@[i].0 == e;
                    assert(self@.epochs[i].0 == e);
                    assert(self@.knows(e));
                }
                assert(self.used_or_zero(((start + tried) % 0x1_0000_0000) as u32));
            }
            e = if e == u32::MAX { 0 } else { e + 1 };
            tried = tried + 1;
        }
        proof {
            self.lemma_some_epoch_is_free(start);
        }
        e
    }

    spec fn used_or_zero(self, e: u32) -> bool {
        e == 0 || self@.knows(e)
    }

    /// Among as many consecutive numbers as there are epochs, and two more, one
    /// is free.
    proof fn lemma_some_epoch_is_free(self, start: u32)
        requires
            self@.epochs.len() + 2 <= u32::MAX,
        ensures
            exists|i: int|
                0 <= i < self@.epochs.len() + 2 && !#[trigger] self.used_or_zero(
                    ((start + i) % 0x1_0000_0000) as u32,
                ),
    {
        let n = self@.epochs.len() as int;
        let used = self@.epochs.map_values(|p: (u32, Seq<u8>)| p.0).push(0u32);
        let used_set = used.to_set();
        used.lemma_cardinality_of_set();
        let range = set_int_range(0, n + 2);
        lemma_int_range(0, n + 2);
        let f = |i: int| ((start + i) % 0x1_0000_0000) as u32;
        let image = range.map(f);
        assert forall|a: int, b: int|
            range.contains(a) && range.contains(b) && #[trigger] f(a) == #[trigger] f(b) implies a
            == b by {
            assert((start + a) % 0x1_0000_0000 == (start + b) % 0x1_0000_0000);
        }
        assert(vstd::relations::injective_on(f, range));
        lemma_map_size(range, image, f);
        if forall|i: int|
            0 <= i < n + 2 ==> #[trigger] self.used_or_zero(((start + i) % 0x1_0000_0000) as u32) {
            assert forall|e: u32| #[trigger] image.contains(e) implies used_set.contains(e) by {
                let i = choose|i: int| range.contains(i) && f(i) == e;
                assert(self.used_or_zero(((start + i) % 0x1_0000_0000) as u32));
                if e == 0 {
                    assert(used[n] == e);
                } else {
                    let k = choose|k: int|
                        0 <= k < self@.epochs.len() && #[trigger] self@.epochs[k].0 == e;
                    assert(used[k] == e);
                }
            }
            assert(image.subset_of(used_set));
            lemma_len_subset(image, used_set);
        }
    }
}

} // verus!
