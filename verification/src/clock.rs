//! The clock by which an unfinished paste is given up.

use std::time::Instant;
use vstd::prelude::*;

verus! {

/// A moment of the monotonic clock, `std::time::Instant`.
#[verifier::external_type_specification]
#[verifier::external_body]
pub struct ExInstant(std::time::Instant);

/// The present moment, by `Instant::now`. Nothing is claimed of it.
#[verifier::external_body]
pub(crate) fn present() -> (r: Instant) {
    Instant::now()
}

/// The nanoseconds that have passed since `start`, by `Instant::elapsed`. Nothing is claimed of
/// the number: it depends on when the clock is read.
#[verifier::external_body]
pub(crate) fn nanoseconds_since(start: &Instant) -> (r: u128) {
    start.elapsed().as_nanos()
}

/// Where the times come from at which bytes are read, in nanoseconds.
pub(crate) enum Readings<'a> {
    /// The clock, counting from this moment.
    Clock(&'a Instant),
    /// A list that holds the time of each byte.
    Given(&'a [u128]),
}

impl<'a> Readings<'a> {
    /// Whether there is a time for each of `n` bytes.
    pub(crate) open spec fn cover(self, n: nat) -> bool {
        self matches Readings::Given(list) ==> n <= list@.len()
    }

    /// Whether `times` may be what is read.
    pub(crate) open spec fn may_give(self, times: Seq<u128>) -> bool {
        self matches Readings::Given(list) ==> times == list@
    }

    /// The time of the byte number `i`, which is being read.
    pub(crate) fn reading(&self, i: usize) -> (r: u128)
        requires
            self.cover(i as nat + 1),
        ensures
            *self matches Readings::Given(list) ==> r == list@[i as int],
    {
        match self {
            Readings::Clock(start) => nanoseconds_since(start),
            Readings::Given(list) => list[i],
        }
    }
}

} // verus!
