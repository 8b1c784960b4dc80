//! Lengths of time, moments, and the clock that reads them.

use std::time::Instant;

use vstd::prelude::*;

verus! {

/// Nanoseconds in one second.
pub const NANOS_PER_SEC: u128 = 1_000_000_000;

/// The longest [`Span`], in nanoseconds: `u64::MAX` seconds and all but one nanosecond of
/// the next.
pub const MAX_SPAN_NANOS: u128 = 18_446_744_073_709_551_615_999_999_999;

/// A length of time, in whole nanoseconds. Its view is that number.
#[derive(Clone, Copy, Debug, PartialEq, Eq, Structural)]
pub struct Span {
    nanos: u128,
}

impl View for Span {
    type V = nat;

    closed spec fn view(&self) -> nat {
        self.nanos as nat
    }
}

impl Span {
    #[verifier::type_invariant]
    spec fn fits(self) -> bool {
        self.nanos <= MAX_SPAN_NANOS
    }

    /// `secs` seconds and `nanos` nanoseconds.
    pub fn new(secs: u64, nanos: u32) -> (span: Span)
        requires
            nanos < NANOS_PER_SEC,
        ensures
            span@ == secs * NANOS_PER_SEC + nanos,
    {
        Span { nanos: secs as u128 * NANOS_PER_SEC + nanos as u128 }
    }

    /// `secs` seconds.
    pub fn from_secs(secs: u64) -> (span: Span)
        ensures
            span@ == secs * NANOS_PER_SEC,
    {
        Span::new(secs, 0)
    }

    /// `millis` milliseconds.
    pub fn from_millis(millis: u64) -> (span: Span)
        ensures
            span@ == millis * 1_000_000,
    {
        Span { nanos: millis as u128 * 1_000_000 }
    }

    /// The whole seconds in this length of time; what is left over is dropped.
    pub fn as_secs(&self) -> (secs: u64)
        ensures
            secs == self@ / NANOS_PER_SEC as nat,
    {
        proof {
            use_type_invariant(self);
        }
        (self.nanos / NANOS_PER_SEC) as u64
    }

    /// What is left of this length of time after `nanos` nanoseconds of it: nothing, where it
    /// is no longer than that.
    pub fn saturating_sub_nanos(&self, nanos: u128) -> (left: Span)
        ensures
            left@ == if nanos <= self@ {
                self@ - nanos
            } else {
                0
            },
    {
        proof {
            use_type_invariant(self);
        }
        if nanos <= self.nanos {
            Span { nanos: self.nanos - nanos }
        } else {
            Span { nanos: 0 }
        }
    }

    /// Whether `nanos` nanoseconds are at least this length of time.
    pub fn is_over(&self, nanos: u128) -> (over: bool)
        ensures
            over == (nanos >= self@),
    {
        nanos >= self.nanos
    }
}

/// A moment, in nanoseconds since the origin of the clock that read it.
#[derive(Clone, Copy, Debug, PartialEq, Eq, Structural)]
pub struct Moment {
    /// Nanoseconds since the origin.
    pub nanos: u128,
}

impl View for Moment {
    type V = nat;

    open spec fn view(&self) -> nat {
        self.nanos as nat
    }
}

/// How long before `now` the moment `earlier` was; nothing, where it is later than `now`.
pub open spec fn elapsed(now: nat, earlier: nat) -> nat {
    if earlier <= now {
        (now - earlier) as nat
    } else {
        0
    }
}

impl Moment {
    /// The nanoseconds from `earlier` to this moment; none, where `earlier` is the later one.
    pub fn since(&self, earlier: Moment) -> (nanos: u128)
        ensures
            nanos == elapsed(self@, earlier@),
    {
        if earlier.nanos <= self.nanos {
            self.nanos - earlier.nanos
        } else {
            0
        }
    }
}

#[verifier::external_type_specification]
#[verifier::external_body]
pub struct ExInstant(std::time::Instant);

/// Calls `std::time::Instant::now`, which reads the machine's monotonic clock. Nothing is
/// claimed of what it reads.
#[verifier::external_body]
fn instant_now() -> (now: Instant) {
    Instant::now()
}

/// Calls `std::time::Instant::elapsed` and hands back the nanoseconds of the `Duration`. They
/// depend on when the call is made, so nothing is claimed of them.
#[verifier::external_body]
fn nanos_elapsed_since(origin: &Instant) -> (nanos: u128) {
    origin.elapsed().as_nanos()
}

/// Whether `nanos` are what a reading of the clock that counts from `origin` may give: whether the
/// machine may answer so when it is asked how many nanoseconds have elapsed since then. Which of
/// these a reading gives depends on when it is made.
pub closed spec fn reads(origin: Instant, nanos: u128) -> bool {
    call_ensures(nanos_elapsed_since, (&origin,), nanos)
}

/// A clock that counts from the moment it was made.
pub(crate) struct Clock {
    origin: Instant,
}

impl Clock {
    /// The moment from which it counts.
    pub(crate) closed spec fn origin(&self) -> Instant {
        self.origin
    }

    /// A clock whose origin is now.
    pub(crate) fn new() -> (clock: Clock) {
        Clock { origin: instant_now() }
    }

    /// The present moment. What it is depends on when the call is made.
    pub(crate) fn now(&self) -> (now: Moment)
        ensures
            reads(self.origin(), now.nanos),
    {
        Moment { nanos: nanos_elapsed_since(&self.origin) }
    }
}

/// A clock hands on what the machine answered, to the nanosecond: what it reads is the number of
/// nanoseconds that the machine gave for its own origin, and a reading is nothing else.
proof fn law_clock_hands_on_what_the_machine_answered(clock: Clock, now: Moment, nanos: u128)
    ensures
        call_ensures(Clock::now, (&clock,), now) ==> call_ensures(
            nanos_elapsed_since,
            (&clock.origin,),
            now.nanos,
        ),
        reads(clock.origin, nanos) <==> call_ensures(nanos_elapsed_since, (&clock.origin,), nanos),
{
}

} // verus!
