//! Counters that describe one search run.

use vstd::prelude::*;

verus! {

#[verifier::external_type_specification]
#[verifier::external_body]
pub struct ExInstant(std::time::Instant);

/// Relies on std::time::Instant::now: the current instant of the monotonic
/// clock. Nothing is claimed of its value.
#[verifier::external_body]
fn now() -> (r: std::time::Instant) {
    std::time::Instant::now()
}

/// How many positions one search run evaluated, and when it started.
pub struct Statistics {
    start: std::time::Instant,
    iterations: i32,
}

impl Statistics {
    pub closed spec fn spec_iterations(&self) -> i32 {
        self.iterations
    }

    pub closed spec fn spec_start(&self) -> std::time::Instant {
        self.start
    }

    /// Starts a run: no position evaluated yet.
    pub fn new() -> (r: Self)
        ensures
            r.spec_iterations() == 0,
    {
        Self { start: now(), iterations: 0 }
    }

    /// Counts one more evaluated position; the count stops at `i32::MAX`.
    pub fn increment(&mut self)
        ensures
            final(self).spec_start() == old(self).spec_start(),
            final(self).spec_iterations() == if old(self).spec_iterations() < i32::MAX {
                old(self).spec_iterations() + 1
            } else {
                old(self).spec_iterations() as int
            },
    {
        if self.iterations < i32::MAX {
            self.iterations = self.iterations + 1;
        }
    }

    /// The number of positions evaluated so far.
    pub fn iterations(&self) -> (r: i32)
        ensures
            r == self.spec_iterations(),
    {
        self.iterations
    }

    /// The instant the run started.
    pub fn started(&self) -> (r: std::time::Instant)
        ensures
            r == self.spec_start(),
    {
        self.start
    }
}

} // verus!
