//! A monotonic clock.
use std::time::Instant;
use vstd::prelude::*;

verus! {

/// Nanoseconds in a millisecond.
pub const MILLISECOND: u64 = 1_000_000;

/// Nanoseconds in a second.
pub const SECOND: u64 = 1_000_000_000;

/// `std::time::Instant`, carried but never looked into.
#[verifier::external_type_specification]
#[verifier::external_body]
pub struct ExInstant(std::time::Instant);

/// `Instant::now` reads the monotonic clock; nothing can be promised of the reading.
pub assume_specification[ std::time::Instant::now ]() -> (r: std::time::Instant)
;

/// Nanoseconds that have passed since `origin`, by `Instant::elapsed`.
///
/// The value depends on when the call is made, so nothing is claimed of it.
#[verifier::external_body]
fn elapsed_nanos(origin: &Instant) -> (r: u64) {
    origin.elapsed().as_nanos() as u64
}

/// Counts nanoseconds from the moment it was started.
#[derive(Debug, Clone, Copy)]
pub struct Clock {
    origin: Instant,
}

impl Clock {
    pub fn start() -> (r: Self) {
        Clock { origin: Instant::now() }
    }

    /// Nanoseconds since the clock was started. What the clock reads is not
    /// determined by the arguments; callers hold for every value.
    pub fn now_ns(&self) -> (r: u64) {
        elapsed_nanos(&self.origin)
    }
}

} // verus!
