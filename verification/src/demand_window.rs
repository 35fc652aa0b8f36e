//! Counts the demand for a peer's keys in windows of time. What a window held is
//! handed on when the window is over, to be smoothed.
use vstd::arithmetic::div_mod::{lemma_fundamental_div_mod, lemma_mod_bound};
use vstd::prelude::*;

verus! {

pub struct DemandWindow {
    window_ms: u64,
    count: u64,
    start_ms: i64,
}

#[verifier::ext_equal]
pub struct WindowState {
    pub window_ms: u64,
    /// Keys that were asked for in the window that is open.
    pub count: u64,
    pub start_ms: i64,
}

/// Windows that are over: the first one held `count` keys, the others none.
#[derive(Debug, Clone, Copy, PartialEq, Eq, Structural)]
pub struct Elapsed {
    pub windows: u64,
    pub count: u64,
}

impl WindowState {
    /// How many windows are over at `now_ms`.
    pub open spec fn elapsed(self, now_ms: i64) -> int {
        if now_ms < self.start_ms {
            0
        } else {
            (now_ms - self.start_ms) / (self.window_ms as int)
        }
    }

    pub open spec fn advanced(self, now_ms: i64) -> WindowState {
        let n = self.elapsed(now_ms);
        WindowState {
            start_ms: (self.start_ms + n * self.window_ms) as i64,
            count: if n > 0 {
                0
            } else {
                self.count
            },
            ..self
        }
    }
}

impl View for DemandWindow {
    type V = WindowState;

    closed spec fn view(&self) -> WindowState {
        WindowState { window_ms: self.window_ms, count: self.count, start_ms: self.start_ms }
    }
}

impl DemandWindow {
    #[verifier::type_invariant]
    spec fn wf(self) -> bool {
        self.window_ms > 0
    }

    /// A window is a millisecond long at least.
    pub fn new(window_ms: u64, now_ms: i64) -> (r: Self)
        ensures
            r@ == (WindowState {
                window_ms: if window_ms == 0 {
                    1
                } else {
                    window_ms
                },
                count: 0,
                start_ms: now_ms,
            }),
    {
        DemandWindow {
            window_ms: if window_ms == 0 {
                1
            } else {
                window_ms
            },
            count: 0,
            start_ms: now_ms,
        }
    }

    /// Closes the windows that are over.
    pub fn advance(&mut self, now_ms: i64) -> (r: Elapsed)
        ensures
            final(self)@ == old(self)@.advanced(now_ms),
            final(self)@.start_ms == old(self)@.start_ms + old(self)@.elapsed(now_ms)
                * old(self)@.window_ms,
            r.windows == old(self)@.elapsed(now_ms),
            r.count == (if r.windows > 0 {
                old(self)@.count
            } else {
                0
            }),
    {
        proof {
            use_type_invariant(&*self);
        }
        let window: u64 = self.window_ms;
        if now_ms < self.start_ms {
            assert(self@.advanced(now_ms) =~= self@);
            return Elapsed { windows: 0, count: 0 };
        }
        let diff: u64 = (now_ms as i128 - self.start_ms as i128) as u64;
        let windows: u64 = diff / window;
        if windows == 0 {
            assert(self@.advanced(now_ms) =~= self@);
            return Elapsed { windows: 0, count: 0 };
        }
        proof {
            lemma_fundamental_div_mod(diff as int, window as int);
            lemma_mod_bound(diff as int, window as int);
            assert(windows * window == window * (diff as int / window as int)) by (nonlinear_arith)
                requires
                    windows == diff as int / window as int,
            ;
        }
        let passed: u64 = windows * window;
        let count: u64 = self.count;
        self.start_ms = (self.start_ms as i128 + passed as i128) as i64;
        self.count = 0;
        Elapsed { windows, count }
    }

    /// Counts keys that are asked for now, after the windows that are over are
    /// closed.
    pub fn record(&mut self, count: u64, now_ms: i64) -> (r: Elapsed)
        ensures
            final(self)@ == (WindowState {
                count: if old(self)@.advanced(now_ms).count + count > u64::MAX {
                    u64::MAX
                } else {
                    (old(self)@.advanced(now_ms).count + count) as u64
                },
                ..old(self)@.advanced(now_ms)
            }),
            r.windows == old(self)@.elapsed(now_ms),
            r.count == (if r.windows > 0 {
                old(self)@.count
            } else {
                0
            }),
    {
        let r = self.advance(now_ms);
        proof {
            use_type_invariant(&*self);
        }
        self.count = self.count.saturating_add(count);
        r
    }
}

/// After windows were closed, `now_ms` lies in the one that is open.
pub proof fn now_is_in_the_open_window(w: WindowState, now_ms: i64)
    requires
        w.window_ms > 0,
        w.start_ms <= now_ms,
    ensures
        w.advanced(now_ms).start_ms <= now_ms < w.advanced(now_ms).start_ms + w.window_ms,
        w.advanced(now_ms).elapsed(now_ms) == 0,
{
    let d = now_ms - w.start_ms;
    lemma_fundamental_div_mod(d, w.window_ms as int);
    lemma_mod_bound(d, w.window_ms as int);
    let n = d / (w.window_ms as int);
    assert(n * w.window_ms == (w.window_ms as int) * n) by (nonlinear_arith);
    assert(0 <= n * w.window_ms) by (nonlinear_arith)
        requires
            d >= 0,
            w.window_ms > 0,
            n == d / (w.window_ms as int),
    ;
    let rest = now_ms - w.advanced(now_ms).start_ms;
    assert(0 <= rest < w.window_ms);
    vstd::arithmetic::div_mod::lemma_basic_div(rest, w.window_ms as int);
}

/// Windows are over one by one: as many as fit whole between the start and now, no
/// fewer and no more.
pub proof fn windows_are_counted_whole(w: WindowState, now_ms: i64, n: int)
    requires
        w.window_ms > 0,
        n >= 0,
    ensures
        now_ms >= w.start_ms ==> (w.elapsed(now_ms) == n <==> w.start_ms + n * w.window_ms <= now_ms
            < w.start_ms + (n + 1) * w.window_ms),
        now_ms < w.start_ms ==> w.elapsed(now_ms) == 0 && w.advanced(now_ms) == w,
{
    if now_ms >= w.start_ms {
        let d = now_ms - w.start_ms;
        let k = w.elapsed(now_ms);
        lemma_fundamental_div_mod(d, w.window_ms as int);
        lemma_mod_bound(d, w.window_ms as int);
        assert(k * w.window_ms == (w.window_ms as int) * k) by (nonlinear_arith);
        assert((k + 1) * w.window_ms == k * w.window_ms + w.window_ms) by (nonlinear_arith);
        if n > k {
            assert(n * w.window_ms >= (k + 1) * w.window_ms) by (nonlinear_arith)
                requires
                    n >= k + 1,
                    w.window_ms > 0,
            ;
        }
        if n < k {
            assert((n + 1) * w.window_ms <= k * w.window_ms) by (nonlinear_arith)
                requires
                    n + 1 <= k,
                    w.window_ms > 0,
            ;
        }
    }
}

/// What was counted stays in its window: while that is open the count stays, and the
/// next one starts with nothing.
pub proof fn count_belongs_to_its_window(w: WindowState, now_ms: i64)
    requires
        w.window_ms > 0,
        w.start_ms <= now_ms,
    ensures
        now_ms < w.start_ms + w.window_ms ==> w.advanced(now_ms) == w,
        now_ms >= w.start_ms + w.window_ms ==> w.advanced(now_ms).count == 0 && w.advanced(
            now_ms,
        ).start_ms > w.start_ms,
        w.advanced(now_ms).window_ms == w.window_ms,
{
    windows_are_counted_whole(w, now_ms, 0);
    now_is_in_the_open_window(w, now_ms);
    let n = w.elapsed(now_ms);
    windows_are_counted_whole(w, now_ms, n);
    assert(0 * w.window_ms == 0) by (nonlinear_arith);
    assert((0 + 1) * w.window_ms == w.window_ms) by (nonlinear_arith);
}

} // verus!
