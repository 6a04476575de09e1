//! The monotonic clock.
use std::time::Instant;
use vstd::prelude::*;

verus! {

/// `std::time::Instant`, a reading of the monotonic clock.
#[verifier::external_type_specification]
#[verifier::external_body]
pub struct ExInstant(std::time::Instant);

/// `std::time::Instant::now` reads the clock. Nothing is claimed of the reading.
#[verifier::external_body]
fn read_clock() -> (r: Instant) {
    Instant::now()
}

/// `std::time::Instant::elapsed`, in nanoseconds. Nothing is claimed of how much
/// time has passed.
#[verifier::external_body]
fn nanos_since(start: &Instant) -> (r: u128) {
    start.elapsed().as_nanos()
}

/// A stopwatch that was started once. Its readings never go back.
pub struct Stopwatch {
    start: Instant,
    latest: u128,
}

impl Stopwatch {
    /// The highest reading that was noted.
    pub closed spec fn latest(&self) -> u128 {
        self.latest
    }

    /// Start a stopwatch.
    pub(crate) fn start() -> (r: Self)
        ensures
            r.latest() == 0,
    {
        Stopwatch { start: read_clock(), latest: 0 }
    }

    /// The nanoseconds since the start, no less than the readings that were noted.
    pub(crate) fn nanos(&self) -> (r: u128)
        ensures
            r >= self.latest(),
    {
        let reading = nanos_since(&self.start);
        if reading < self.latest {
            self.latest
        } else {
            reading
        }
    }

    /// The nanoseconds since the start, and note them.
    pub(crate) fn advance(&mut self) -> (r: u128)
        ensures
            r >= old(self).latest(),
            final(self).latest() == r,
    {
        let reading = self.nanos();
        self.latest = reading;
        reading
    }
}

} // verus!
