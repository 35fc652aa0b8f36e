//! Counters of the handshakes on one listener.
use crate::flow_stats::bumped;
use vstd::prelude::*;

verus! {

/// Handshakes since the counters were last read.
#[derive(Debug, Clone, Copy, PartialEq, Eq, Structural)]
pub struct TlsStats {
    pub accepted: u64,
    pub failed: u64,
    /// Time that the accepted ones took together, in microseconds.
    pub total_us: u64,
    /// Time that the longest took.
    pub max_us: u64,
}

impl Default for TlsStats {
    fn default() -> (r: Self)
        ensures
            r == TlsStats::zero(),
    {
        TlsStats { accepted: 0, failed: 0, total_us: 0, max_us: 0 }
    }
}

impl TlsStats {
    pub open spec fn zero() -> TlsStats {
        TlsStats { accepted: 0, failed: 0, total_us: 0, max_us: 0 }
    }

    pub fn record_ok(&mut self, us: u64)
        ensures
            *final(self) == (TlsStats {
                accepted: bumped(old(self).accepted, 1),
                total_us: bumped(old(self).total_us, us),
                max_us: if us > old(self).max_us {
                    us
                } else {
                    old(self).max_us
                },
                ..*old(self)
            }),
    {
        self.accepted = self.accepted.wrapping_add(1);
        self.total_us = self.total_us.wrapping_add(us);
        if us > self.max_us {
            self.max_us = us;
        }
    }

    pub fn record_failed(&mut self)
        ensures
            *final(self) == (TlsStats { failed: bumped(old(self).failed, 1), ..*old(self) }),
    {
        self.failed = self.failed.wrapping_add(1);
    }

    /// Reads the counters and sets them back. There is nothing to read if there was
    /// no handshake.
    pub fn drain(&mut self) -> (r: Option<TlsStats>)
        ensures
            *final(self) == TlsStats::zero(),
            r == (if old(self).accepted == 0 && old(self).failed == 0 {
                None
            } else {
                Some(*old(self))
            }),
    {
        let read = *self;
        *self = TlsStats::default();
        if read.accepted == 0 && read.failed == 0 {
            None
        } else {
            Some(read)
        }
    }
}

} // verus!
