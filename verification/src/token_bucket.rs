//! How much an application entity may ask for, by what it asked for before.
use crate::ids::SaeId;
use crate::table::Table;
use vstd::prelude::*;
use vstd::string::*;

verus! {

/// Parts of a token: what comes in in a nanosecond at one token a second is one part.
pub const TOKEN: u64 = 1_000_000_000;

/// Units that keys of `size_bytes` take: each key as many as it begins, for each
/// destination.
pub open spec fn cost_of(size_bytes: nat, number: nat, destinations: nat, unit: nat) -> nat {
    let units = if size_bytes % unit == 0 {
        size_bytes / unit
    } else {
        size_bytes / unit + 1
    };
    units * number * destinations
}

pub open spec fn capped(n: int) -> u64 {
    if n > u64::MAX {
        u64::MAX
    } else {
        n as u64
    }
}

fn capped_product(a: u64, b: u64) -> (r: u64)
    ensures
        r == capped(a * b),
{
    match a.checked_mul(b) {
        Some(p) => p,
        None => u64::MAX,
    }
}

/// What a request costs, or the greatest number there is. A unit is a byte at least.
pub fn compute_cost(size_bytes: u64, number: u64, destinations: u64, unit: u64) -> (r: u64)
    ensures
        r == capped(
            cost_of(
                size_bytes as nat,
                number as nat,
                destinations as nat,
                if unit == 0 {
                    1
                } else {
                    unit as nat
                },
            ) as int,
        ),
{
    let unit: u64 = if unit == 0 { 1 } else { unit };
    assert(size_bytes / unit <= size_bytes) by (nonlinear_arith)
        requires
            unit >= 1,
    ;
    let units: u64 = if size_bytes % unit == 0 {
        size_bytes / unit
    } else {
        assert(unit > 1) by (nonlinear_arith)
            requires
                unit >= 1,
                size_bytes % unit != 0,
        ;
        assert(size_bytes / unit < u64::MAX) by (nonlinear_arith)
            requires
                unit > 1,
        ;
        size_bytes / unit + 1
    };
    let each: u64 = capped_product(units, number);
    let all: u64 = capped_product(each, destinations);
    proof {
        let exact = units * number * destinations;
        assert(cost_of(size_bytes as nat, number as nat, destinations as nat, unit as nat) == exact);
        if destinations == 0 {
            assert(exact == 0) by (nonlinear_arith)
                requires
                    exact == units * number * destinations,
                    destinations == 0,
            ;
            assert(each * destinations == 0) by (nonlinear_arith)
                requires
                    destinations == 0,
            ;
        }
        if units * number > u64::MAX {
            if destinations > 0 {
                assert(exact > u64::MAX) by (nonlinear_arith)
                    requires
                        exact == units * number * destinations,
                        units * number > u64::MAX,
                        destinations >= 1,
                ;
                assert(u64::MAX * destinations >= u64::MAX) by (nonlinear_arith)
                    requires
                        destinations >= 1,
                ;
            }
        }
    }
    all
}

struct Bucket {
    rate: u64,
    burst: u64,
    /// Billionths of a token.
    level: u128,
    at_ns: u64,
}

/// Tokens that one entity has, in billionths, at a moment.
#[verifier::ext_equal]
pub struct Level {
    /// Tokens that come in each second.
    pub rate: u64,
    /// Tokens that there are at most.
    pub burst: u64,
    pub level: nat,
    pub at_ns: u64,
}

impl Level {
    pub open spec fn full(rate: u64, burst: u64, now_ns: u64) -> Level {
        Level { rate, burst, level: (burst * TOKEN) as nat, at_ns: now_ns }
    }

    /// What there is at `now_ns`.
    pub open spec fn refilled(self, now_ns: u64) -> Level {
        if now_ns <= self.at_ns {
            self
        } else {
            let grown = self.level + (now_ns - self.at_ns) * self.rate;
            Level {
                level: if grown > self.burst * TOKEN {
                    (self.burst * TOKEN) as nat
                } else {
                    grown as nat
                },
                at_ns: now_ns,
                ..self
            }
        }
    }

    /// Whole tokens.
    pub open spec fn tokens(self) -> nat {
        self.level / TOKEN as nat
    }

    pub open spec fn spent(self, cost: u64) -> Level {
        Level { level: (self.level - cost * TOKEN) as nat, ..self }
    }

    pub open spec fn refunded(self, amount: u64) -> Level {
        let grown = self.level + amount * TOKEN;
        Level {
            level: if grown > self.burst * TOKEN {
                (self.burst * TOKEN) as nat
            } else {
                grown as nat
            },
            ..self
        }
    }
}

impl View for Bucket {
    type V = Level;

    closed spec fn view(&self) -> Level {
        Level { rate: self.rate, burst: self.burst, level: self.level as nat, at_ns: self.at_ns }
    }
}

impl Bucket {
    spec fn wf(self) -> bool {
        self.level <= self.burst * TOKEN
    }

    fn full(rate: u64, burst: u64, now_ns: u64) -> (r: Self)
        ensures
            r.wf(),
            r@ == Level::full(rate, burst, now_ns),
    {
        assert(burst * TOKEN <= u64::MAX * TOKEN);
        Bucket { rate, burst, level: burst as u128 * TOKEN as u128, at_ns: now_ns }
    }

    fn refill(&mut self, now_ns: u64)
        requires
            old(self).wf(),
        ensures
            final(self).wf(),
            final(self)@ == old(self)@.refilled(now_ns),
    {
        if now_ns <= self.at_ns {
            return;
        }
        let elapsed: u64 = now_ns - self.at_ns;
        let cap: u128 = self.burst as u128 * TOKEN as u128;
        assert(elapsed * self.rate <= u64::MAX * u64::MAX) by (nonlinear_arith)
            requires
                elapsed <= u64::MAX,
                self.rate <= u64::MAX,
        ;
        let more: u128 = elapsed as u128 * self.rate as u128;
        self.level = match self.level.checked_add(more) {
            Some(grown) => if grown > cap {
                cap
            } else {
                grown
            },
            None => cap,
        };
        self.at_ns = now_ns;
    }
}

#[verifier::ext_equal]
pub struct BucketsView {
    pub levels: Map<Seq<char>, Level>,
    pub rate: u64,
    pub burst: u64,
}

impl BucketsView {
    /// What an entity has; one that is new has all it may have.
    pub open spec fn of(self, sae: Seq<char>, now_ns: u64) -> Level {
        if self.levels.dom().contains(sae) {
            self.levels[sae].refilled(now_ns)
        } else {
            Level::full(self.rate, self.burst, now_ns)
        }
    }

    pub open spec fn with(self, sae: Seq<char>, level: Level) -> BucketsView {
        BucketsView { levels: self.levels.insert(sae, level), ..self }
    }

    /// No entity has more than it may have.
    pub open spec fn in_order(self) -> bool {
        forall|s: Seq<char>| #[trigger]
            self.levels.dom().contains(s) ==> self.levels[s].level <= self.levels[s].burst * TOKEN
    }
}

/// The tokens of all entities.
pub struct SaeBuckets {
    buckets: Table<Bucket>,
    rate: u64,
    burst: u64,
}

spec fn level_views(m: Map<Seq<char>, Bucket>) -> Map<Seq<char>, Level> {
    Map::new(|s: Seq<char>| m.dom().contains(s), |s: Seq<char>| m[s]@)
}

impl View for SaeBuckets {
    type V = BucketsView;

    closed spec fn view(&self) -> BucketsView {
        BucketsView { levels: level_views(self.buckets@), rate: self.rate, burst: self.burst }
    }
}

impl SaeBuckets {
    pub closed spec fn inv(self) -> bool {
        &&& self.buckets.inv()
        &&& forall|s: Seq<char>| #[trigger] self.buckets@.dom().contains(s) ==> self.buckets@[s].wf()
    }

    /// What the laws of the tokens ask for holds of all buckets.
    pub proof fn lemma_in_order(self)
        requires
            self.inv(),
        ensures
            self@.in_order(),
    {
        assert forall|s: Seq<char>| #[trigger] self@.levels.dom().contains(s) implies self@.levels[s].level
            <= self@.levels[s].burst * TOKEN by {
            assert(self.buckets@.dom().contains(s));
        }
    }

    pub fn new(rate: u64, burst: u64) -> (r: Self)
        ensures
            r.inv(),
            r@ == (BucketsView { levels: Map::empty(), rate, burst }),
    {
        let r = SaeBuckets { buckets: Table::new(), rate, burst };
        assert(r@.levels =~= Map::<Seq<char>, Level>::empty());
        r
    }

    fn take_bucket(&mut self, sae: &str, now_ns: u64) -> (r: Bucket)
        requires
            old(self).inv(),
        ensures
            final(self).inv(),
            r.wf(),
            r@ == old(self)@.of(sae@, now_ns),
            final(self)@ == (BucketsView { levels: old(self)@.levels.remove(sae@), ..old(self)@ }),
    {
        let ghost before = self@;
        let taken = self.buckets.remove(sae);
        assert(self@.levels =~= before.levels.remove(sae@));
        match taken {
            Some(b) => {
                let mut b = b;
                b.refill(now_ns);
                b
            },
            None => Bucket::full(self.rate, self.burst, now_ns),
        }
    }

    fn put_bucket(&mut self, sae: &str, b: Bucket)
        requires
            old(self).inv(),
            b.wf(),
        ensures
            final(self).inv(),
            final(self)@ == old(self)@.with(sae@, b@),
    {
        let ghost before = self@;
        let ghost bv = b@;
        self.buckets.insert(sae, b);
        assert(self@.levels =~= before.levels.insert(sae@, bv));
    }

    /// Takes what a request costs from an entity's tokens, or says how many it has
    /// if they are too few.
    pub fn try_consume(&mut self, sae: &SaeId, cost: u64, now_ns: u64) -> (r: Result<(), u64>)
        requires
            old(self).inv(),
        ensures
            final(self).inv(),
            ({
                let now = old(self)@.of(sae@, now_ns);
                match r {
                    Ok(_) => now.tokens() >= cost && final(self)@ == old(self)@.with(
                        sae@,
                        now.spent(cost),
                    ),
                    Err(available) => {
                        &&& now.tokens() < cost
                        &&& available == now.tokens()
                        &&& final(self)@ == old(self)@.with(sae@, now)
                    },
                }
            }),
    {
        let ghost before = self@;
        let mut b = self.take_bucket(sae.as_str(), now_ns);
        let need: u128 = cost as u128 * TOKEN as u128;
        let enough = b.level >= need;
        let available: u128 = b.level / TOKEN as u128;
        if enough {
            b.level = b.level - need;
        }
        let ghost bv = b@;
        self.put_bucket(sae.as_str(), b);
        assert(self@.levels =~= before.levels.insert(sae@, bv));
        if enough {
            Ok(())
        } else {
            Err(available as u64)
        }
    }

    /// Gives tokens back, as many as the entity may have.
    pub fn refund(&mut self, sae: &SaeId, amount: u64, now_ns: u64)
        requires
            old(self).inv(),
        ensures
            final(self).inv(),
            final(self)@ == old(self)@.with(sae@, old(self)@.of(sae@, now_ns).refunded(amount)),
    {
        let ghost before = self@;
        let mut b = self.take_bucket(sae.as_str(), now_ns);
        let cap: u128 = b.burst as u128 * TOKEN as u128;
        let grown: u128 = b.level + amount as u128 * TOKEN as u128;
        b.level = if grown > cap { cap } else { grown };
        let ghost bv = b@;
        self.put_bucket(sae.as_str(), b);
        assert(self@.levels =~= before.levels.insert(sae@, bv));
    }

    /// Sets how many tokens come in to an entity each second and how many it may
    /// have: one at least of each, and no fewer than come in.
    pub fn set_limits(&mut self, sae: &SaeId, rate: u64, burst: u64, now_ns: u64)
        requires
            old(self).inv(),
        ensures
            final(self).inv(),
            ({
                let (rate, burst) = limits(rate, burst);
                final(self)@ == old(self)@.with(sae@, Level::full(rate, burst, now_ns))
            }),
    {
        let ghost before = self@;
        let rate1: u64 = if rate < 1 { 1 } else { rate };
        let burst1: u64 = if burst < rate1 { rate1 } else { burst };
        let b = Bucket::full(rate1, burst1, now_ns);
        self.put_bucket(sae.as_str(), b);
    }
}

/// The limits that are set where these are asked for.
pub open spec fn limits(rate: u64, burst: u64) -> (u64, u64) {
    let r = if rate < 1 {
        1
    } else {
        rate
    };
    (
        r,
        if burst < r {
            r
        } else {
            burst
        },
    )
}

/// What is taken and given back is as if it had not been taken.
pub proof fn refund_undoes_a_request(level: Level, cost: u64)
    requires
        level.level <= level.burst * TOKEN,
        level.tokens() >= cost,
    ensures
        level.spent(cost).refunded(cost) == level,
{
}

/// What is taken and given back later leaves an entity with as much as if it had
/// only waited.
pub proof fn late_refund_undoes_a_request(
    buckets: BucketsView,
    sae: Seq<char>,
    cost: u64,
    now_ns: u64,
    later_ns: u64,
)
    requires
        buckets.in_order(),
        buckets.of(sae, now_ns).tokens() >= cost,
    ensures
        ({
            let had = buckets.of(sae, now_ns);
            let charged = buckets.with(sae, had.spent(cost));
            charged.of(sae, later_ns).refunded(cost) == had.refilled(later_ns)
        }),
{
    let had = buckets.of(sae, now_ns);
    assert(had.level <= had.burst * TOKEN) by {
        if buckets.levels.dom().contains(sae) {
            tokens_are_bounded(buckets.levels[sae], now_ns);
        }
    }
    let charged = buckets.with(sae, had.spent(cost));
    assert(charged.levels[sae] == had.spent(cost));
}

/// A request for several destinations costs what it costs for one, as often as there
/// are destinations.
pub proof fn cost_is_shared_out(size_bytes: nat, number: nat, destinations: nat, unit: nat)
    requires
        destinations > 0,
        unit > 0,
    ensures
        capped(cost_of(size_bytes, number, destinations, unit) as int) == capped(
            capped(cost_of(size_bytes, number, 1, unit) as int) * destinations,
        ),
{
    let one = cost_of(size_bytes, number, 1, unit);
    let units = if size_bytes % unit == 0 {
        size_bytes / unit
    } else {
        size_bytes / unit + 1
    };
    assert(units * number * 1 == units * number);
    assert(cost_of(size_bytes, number, destinations, unit) == one * destinations);
    if one > u64::MAX {
        assert(one * destinations > u64::MAX) by (nonlinear_arith)
            requires
                one > u64::MAX,
                destinations >= 1,
        ;
        assert(u64::MAX * destinations >= u64::MAX) by (nonlinear_arith)
            requires
                destinations >= 1,
        ;
    }
}

/// In no time does an entity get more than its burst and what came in since.
pub proof fn tokens_are_bounded(level: Level, now_ns: u64)
    requires
        level.level <= level.burst * TOKEN,
    ensures
        level.refilled(now_ns).level <= level.burst * TOKEN,
        now_ns >= level.at_ns ==> level.refilled(now_ns).level <= level.level + (now_ns
            - level.at_ns) * level.rate,
{
    if now_ns > level.at_ns {
        assert((now_ns - level.at_ns) * level.rate >= 0) by (nonlinear_arith)
            requires
                now_ns > level.at_ns,
        ;
    }
}

/// A key costs as many units as it takes to hold it and no more, and a request costs
/// that for each key and each destination.
pub proof fn cost_is_what_the_keys_take(size_bytes: nat, number: nat, destinations: nat, unit: nat)
    requires
        unit > 0,
    ensures
        ({
            let units = cost_of(size_bytes, 1, 1, unit);
            &&& size_bytes <= units * unit < size_bytes + unit
            &&& cost_of(size_bytes, number, destinations, unit) == units * number * destinations
        }),
{
    let units = cost_of(size_bytes, 1, 1, unit);
    let whole = size_bytes / unit;
    let rest = size_bytes % unit;
    vstd::arithmetic::div_mod::lemma_fundamental_div_mod(size_bytes as int, unit as int);
    assert(units == if rest == 0 {
        whole
    } else {
        whole + 1
    }) by (nonlinear_arith)
        requires
            units == (if rest == 0 {
                whole
            } else {
                whole + 1
            }) * 1 * 1,
    ;
    assert(whole * unit == unit * whole) by (nonlinear_arith);
    assert((whole + 1) * unit == unit * whole + unit) by (nonlinear_arith);
}

/// Tokens come in at the rate, up to the burst: after so many whole seconds there
/// are so many times the rate more of them.
pub proof fn tokens_come_in_each_second(level: Level, seconds: u64)
    requires
        level.level <= level.burst * TOKEN,
        level.at_ns + seconds * 1_000_000_000 <= u64::MAX,
    ensures
        ({
            let later = level.refilled((level.at_ns + seconds * 1_000_000_000) as u64);
            let grown = level.tokens() + seconds * level.rate;
            &&& later.tokens() == (if grown > level.burst {
                level.burst as int
            } else {
                grown
            })
            &&& later.rate == level.rate
            &&& later.burst == level.burst
        }),
{
    let later_ns = (level.at_ns + seconds * 1_000_000_000) as u64;
    let more = seconds * level.rate;
    assert((seconds * 1_000_000_000) * level.rate == more * 1_000_000_000) by (nonlinear_arith)
        requires
            more == seconds * level.rate,
    ;
    assert(more >= 0) by (nonlinear_arith)
        requires
            more == seconds * level.rate,
    ;
    let later = level.refilled(later_ns);
    if later_ns > level.at_ns {
        assert((later_ns - level.at_ns) * level.rate == more * 1_000_000_000);
    } else {
        assert(seconds == 0);
        assert(more == 0) by (nonlinear_arith)
            requires
                more == seconds * level.rate,
                seconds == 0,
        ;
    }
}

/// It does not matter how often tokens are looked at: what comes in by a moment is
/// the same. A clock that stands takes nothing and brings nothing.
pub proof fn looking_brings_no_tokens(level: Level, now_ns: u64, later_ns: u64)
    requires
        level.level <= level.burst * TOKEN,
        level.at_ns <= now_ns <= later_ns,
    ensures
        level.refilled(now_ns).refilled(later_ns) == level.refilled(later_ns),
        level.refilled(level.at_ns) == level,
        level.level <= level.refilled(now_ns).level <= level.refilled(later_ns).level,
{
    let a = now_ns - level.at_ns;
    let b = later_ns - now_ns;
    assert((a + b) * level.rate == a * level.rate + b * level.rate) by (nonlinear_arith);
    assert(a * level.rate >= 0) by (nonlinear_arith)
        requires
            a >= 0,
    ;
    assert(b * level.rate >= 0) by (nonlinear_arith)
        requires
            b >= 0,
    ;
    assert(later_ns - level.at_ns == a + b);
}

/// What a request costs is missing afterwards, and what is given back is there
/// again, up to the burst, in whole tokens.
pub proof fn tokens_are_counted_exactly(level: Level, cost: u64, amount: u64)
    requires
        level.level <= level.burst * TOKEN,
    ensures
        level.tokens() >= cost ==> level.spent(cost).tokens() == level.tokens() - cost,
        level.refunded(amount).tokens() == (if level.tokens() + amount > level.burst {
            level.burst as int
        } else {
            level.tokens() + amount
        }),
        level.spent(cost).rate == level.rate && level.spent(cost).burst == level.burst,
        level.refunded(amount).rate == level.rate && level.refunded(amount).burst == level.burst,
{
}

/// An entity that never asked has its whole burst, and what one entity asks for is
/// not missing from another.
pub proof fn entities_have_tokens_of_their_own(
    buckets: BucketsView,
    sae: Seq<char>,
    level: Level,
    other: Seq<char>,
    now_ns: u64,
)
    requires
        other != sae,
    ensures
        buckets.with(sae, level).of(other, now_ns) == buckets.of(other, now_ns),
        !buckets.levels.dom().contains(other) ==> {
            &&& buckets.of(other, now_ns).tokens() == buckets.burst
            &&& buckets.of(other, now_ns).rate == buckets.rate
            &&& buckets.of(other, now_ns).burst == buckets.burst
        },
{
}

/// Limits let something through: a token comes in each second at least, and no fewer
/// can be held than come in. Limits that do are taken as they are.
pub proof fn limits_let_something_through(rate: u64, burst: u64)
    ensures
        limits(rate, burst).0 >= 1,
        limits(rate, burst).1 >= limits(rate, burst).0,
        rate >= 1 ==> limits(rate, burst).0 == rate,
        rate >= 1 && burst >= rate ==> limits(rate, burst).1 == burst,
        rate == 0 ==> limits(rate, burst).0 == 1,
        burst < rate ==> limits(rate, burst).1 == rate,
{
}

} // verus!
