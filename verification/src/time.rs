//! Clock readings and spans of time as plain numbers.
use vstd::prelude::*;

verus! {

/// Nanoseconds in a millisecond.
pub const NANOS_PER_MILLI: u64 = 1_000_000;

/// A span of time.
#[derive(Clone, Copy, Debug, PartialEq, Eq, PartialOrd, Ord, Structural)]
pub struct Duration {
    pub nanos: u64,
}

impl Duration {
    /// A span of whole milliseconds.
    pub fn from_millis(millis: u64) -> (duration: Self)
        requires
            millis * NANOS_PER_MILLI <= u64::MAX,
        ensures
            duration.nanos == millis * NANOS_PER_MILLI,
            duration.nanos == millis * 1_000_000,
    {
        Duration { nanos: millis * NANOS_PER_MILLI }
    }

    /// The whole milliseconds in this span.
    pub open spec fn millis(self) -> nat {
        (self.nanos / NANOS_PER_MILLI) as nat
    }

    /// The whole milliseconds in this span.
    pub fn as_millis(self) -> (millis: u64)
        ensures
            millis == self.millis(),
            millis == self.nanos / 1_000_000,
    {
        self.nanos / NANOS_PER_MILLI
    }
}

/// A reading of a clock: the time since the clock was started.
#[derive(Clone, Copy, Debug, PartialEq, Eq, PartialOrd, Ord, Structural)]
pub struct Instant {
    pub nanos: u128,
}

impl Instant {
    /// How much later this instant is than `earlier`, or nothing where it is not later.
    pub fn saturating_duration_since(self, earlier: Instant) -> (nanos: u128)
        ensures
            nanos == if self.nanos > earlier.nanos {
                self.nanos - earlier.nanos
            } else {
                0
            },
    {
        if self.nanos > earlier.nanos {
            self.nanos - earlier.nanos
        } else {
            0
        }
    }
}

/// A reading of the system's monotonic clock.
#[verifier::external_type_specification]
#[verifier::external_body]
pub struct ExInstant(std::time::Instant);

/// Reads the system's monotonic clock with `std::time::Instant::now`. Nothing is stated of the
/// reading.
#[verifier::external_body]
fn system_now() -> (now: std::time::Instant) {
    std::time::Instant::now()
}

/// The longest time that a clock can show, in nanoseconds: as many whole seconds as a `u64` can count,
/// and less than one second more.
pub open spec fn longest() -> nat {
    (u64::MAX * 1_000_000_000 + 999_999_999) as nat
}

/// The nanoseconds since `start`, by `std::time::Instant::elapsed`. That is a `Duration`, whose whole
/// seconds are a `u64` and whose remaining nanoseconds are less than a second, which bounds the
/// number. Which number it is depends on when this is called, and is not stated.
#[verifier::external_body]
fn nanos_since(start: &std::time::Instant) -> (nanos: u128)
    ensures
        nanos <= longest(),
{
    start.elapsed().as_nanos()
}

/// A clock that counts from when it was started.
pub struct Clock {
    start: std::time::Instant,
}

impl Clock {
    /// This clock was started at what the system's clock showed when it was asked.
    pub closed spec fn started(self) -> bool {
        call_ensures(system_now, (), self.start)
    }

    /// Whether this clock, when it was asked, showed `now`. Nothing but asking it establishes that.
    pub closed spec fn shows(self, now: Instant) -> bool {
        call_ensures(nanos_since, (&self.start,), now.nanos)
    }

    /// Whether `now` is what this clock showed when it was asked, or `seen`, whichever is later. Time
    /// does not run backwards, so where `seen` is an earlier reading that is what the clock showed.
    pub open spec fn shows_since(self, seen: Instant, now: Instant) -> bool {
        exists|shown: Instant| #[trigger]
            self.shows(shown) && now.nanos >= shown.nanos && now.nanos >= seen.nanos && (now == shown
                || now == seen) && shown.nanos <= longest()
    }

    /// A clock that starts now.
    pub fn start() -> (clock: Self)
        ensures
            clock.started(),
    {
        Clock { start: system_now() }
    }

    /// The time since this clock was started.
    pub fn now(&self) -> (now: Instant)
        ensures
            now.nanos <= longest(),
            self.shows(now),
    {
        Instant { nanos: nanos_since(&self.start) }
    }

    /// The time since this clock was started, and no earlier than `seen`, a reading that was made
    /// before.
    pub fn now_since(&self, seen: Instant) -> (now: Instant)
        ensures
            self.shows_since(seen, now),
    {
        let shown = self.now();
        if shown.nanos >= seen.nanos {
            shown
        } else {
            seen
        }
    }
}

/// A random number below `bound`, by `rand::rng().random_range`. Which one is left open.
#[verifier::external_body]
pub(crate) fn random_below(bound: u64) -> (number: u64)
    requires
        bound > 0,
    ensures
        number < bound,
{
    rand::Rng::random_range(&mut rand::rng(), 0..bound)
}

/// Whether `number` was drawn at random below `bound`. Nothing but drawing it establishes that.
pub closed spec fn drawn(bound: u64, number: u64) -> bool {
    call_ensures(random_below, (bound,), number)
}

/// Draws a random number below `bound`.
pub fn draw_below(bound: u64) -> (number: u64)
    requires
        bound > 0,
    ensures
        number < bound,
        drawn(bound, number),
{
    random_below(bound)
}

/// A clock that was started was started at what the system's clock showed, what it shows is what the
/// system says has passed since, and what was drawn came from the random source.
proof fn law_readings_are_read_and_draws_are_drawn(
    clock: Clock,
    now: Instant,
    bound: u64,
    number: u64,
)
    ensures
        clock.started() ==> call_ensures(system_now, (), clock.start),
        clock.shows(now) ==> call_ensures(nanos_since, (&clock.start,), now.nanos),
        drawn(bound, number) ==> call_ensures(random_below, (bound,), number),
{
}

} // verus!
