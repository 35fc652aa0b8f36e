//! Whether requests are taken, and how many are being served.
use crate::flow_stats::bumped;
use vstd::prelude::*;
use vstd::string::*;

verus! {

pub struct Admission {
    accepting: bool,
    inflight: u64,
}

#[verifier::ext_equal]
pub struct AdmissionView {
    pub accepting: bool,
    /// Requests that were taken and are not finished.
    pub inflight: u64,
}

impl View for Admission {
    type V = AdmissionView;

    closed spec fn view(&self) -> AdmissionView {
        AdmissionView { accepting: self.accepting, inflight: self.inflight }
    }
}

impl Admission {
    pub fn new() -> (r: Self)
        ensures
            r@ == (AdmissionView { accepting: true, inflight: 0 }),
    {
        Admission { accepting: true, inflight: 0 }
    }

    pub fn is_accepting(&self) -> (r: bool)
        ensures
            r == self@.accepting,
    {
        self.accepting
    }

    /// Takes no more requests. Those that were taken go on.
    pub fn close(&mut self)
        ensures
            final(self)@ == (AdmissionView { accepting: false, ..old(self)@ }),
    {
        self.accepting = false;
    }

    pub fn reopen(&mut self)
        ensures
            final(self)@ == (AdmissionView { accepting: true, ..old(self)@ }),
    {
        self.accepting = true;
    }

    /// Counts a request that is being served.
    pub fn acquire(&mut self)
        ensures
            final(self)@ == (AdmissionView {
                inflight: bumped(old(self)@.inflight, 1),
                ..old(self)@
            }),
    {
        self.inflight = self.inflight.wrapping_add(1);
    }

    /// A request is finished. Says whether it was the last.
    pub fn release(&mut self) -> (r: bool)
        requires
            old(self)@.inflight > 0,
        ensures
            final(self)@ == (AdmissionView {
                inflight: (old(self)@.inflight - 1) as u64,
                ..old(self)@
            }),
            r == (final(self)@.inflight == 0),
    {
        self.inflight = self.inflight - 1;
        self.inflight == 0
    }

    pub fn inflight(&self) -> (r: u64)
        ensures
            r == self@.inflight,
    {
        self.inflight
    }

    /// Takes a request, or says with which status and in which words it is refused.
    pub fn enter(&mut self) -> (r: Result<(), (u16, String)>)
        ensures
            match r {
                Ok(_) => old(self)@.accepting && final(self)@ == (AdmissionView {
                    inflight: bumped(old(self)@.inflight, 1),
                    ..old(self)@
                }),
                Err((status, message)) => {
                    &&& !old(self)@.accepting
                    &&& final(self)@ == old(self)@
                    &&& status == 503
                    &&& message@ == "dkms is draining, not accepting new requests"@
                },
            },
    {
        if !self.accepting {
            return Err((503, "dkms is draining, not accepting new requests".to_owned()));
        }
        self.acquire();
        Ok(())
    }
}

/// How long a drain waits for requests that are being served.
pub fn drain_grace_secs(asked: u32) -> (r: u64)
    ensures
        r == (if asked == 0 {
            5
        } else {
            asked as int
        }),
{
    if asked == 0 {
        5
    } else {
        asked as u64
    }
}

} // verus!
