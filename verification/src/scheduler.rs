//! Whose turn it is.
use vstd::prelude::*;

verus! {

/// Goes round a list of which only the length is known.
pub struct Scheduler {
    pub period_ms: u64,
    cursor: usize,
}

impl Scheduler {
    /// Where the next turn starts.
    pub closed spec fn at(self) -> nat {
        self.cursor as nat
    }

    pub closed spec fn period(self) -> u64 {
        self.period_ms
    }

    pub closed spec fn inv(self) -> bool {
        self.cursor < usize::MAX
    }

    pub fn new(period_ms: u64) -> (r: Self)
        ensures
            r.inv(),
            r.at() == 0,
            r.period() == period_ms,
    {
        Scheduler { period_ms, cursor: 0 }
    }

    /// The next turn among `n`, if there is anyone.
    pub fn next_index(&mut self, n: usize) -> (r: Option<usize>)
        requires
            old(self).inv(),
        ensures
            final(self).inv(),
            final(self).period() == old(self).period(),
            match r {
                Some(i) => {
                    &&& n > 0
                    &&& i == old(self).at() % n as nat
                    &&& final(self).at() == (old(self).at() + 1) % n as nat
                },
                None => n == 0 && final(self).at() == old(self).at(),
            },
    {
        if n == 0 {
            return None;
        }
        let i: usize = self.cursor % n;
        self.cursor = (self.cursor + 1) % n;
        Some(i)
    }
}

/// Where the turn is after `k` turns among `n`.
pub open spec fn after_turns(at: nat, n: nat, k: nat) -> nat
    decreases k,
{
    if k == 0 {
        at
    } else {
        (after_turns(at, n, (k - 1) as nat) + 1) % n
    }
}

proof fn lemma_after_turns(at: nat, n: nat, k: nat)
    requires
        n > 0,
        at < n,
    ensures
        after_turns(at, n, k) == (at + k) % n,
    decreases k,
{
    if k == 0 {
        vstd::arithmetic::div_mod::lemma_small_mod(at, n);
    } else {
        lemma_after_turns(at, n, (k - 1) as nat);
        vstd::arithmetic::div_mod::lemma_add_mod_noop_right(1, (at + k - 1) as int, n as int);
        assert((1 + (at + k - 1) % (n as int)) % (n as int) == (1 + (at + k - 1)) % (n as int));
    }
}

/// Nobody is passed over: among `n`, each gets a turn within any `n` turns.
pub proof fn everyone_gets_a_turn(at: nat, n: nat, i: nat)
    requires
        at < n,
        i < n,
    ensures
        exists|k: nat| k < n && #[trigger] after_turns(at, n, k) % n == i,
{
    let k = if i >= at {
        (i - at) as nat
    } else {
        (i + n - at) as nat
    };
    lemma_after_turns(at, n, k);
    if i >= at {
        vstd::arithmetic::div_mod::lemma_small_mod(i, n);
    } else {
        vstd::arithmetic::div_mod::lemma_mod_add_multiples_vanish(i as int, n as int);
        vstd::arithmetic::div_mod::lemma_small_mod(i, n);
    }
    assert(after_turns(at, n, k) == i);
    vstd::arithmetic::div_mod::lemma_small_mod(i, n);
    assert(k < n && after_turns(at, n, k) % n == i);
}

} // verus!
