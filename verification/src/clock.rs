use crate::task::executor::WakeSet;
use crate::task::timer::{wake_tasks, TimerWakers};
use vstd::prelude::*;

verus! {

/// A monotonically nondecreasing, millisecond-granular clock.
///
/// The hardware timer interrupt drives it: each firing advances the counter
/// by exactly one millisecond. Everything else only reads the counter.
pub struct Clock {
    ms: u64,
}

impl Clock {
    /// The counter value, for contracts.
    pub closed spec fn millis(self) -> u64 {
        self.ms
    }

    /// A clock that has not ticked yet.
    pub fn new() -> (c: Clock)
        ensures
            c.millis() == 0,
    {
        Clock { ms: 0 }
    }

    /// Read the counter.
    pub fn now_ms(&self) -> (r: u64)
        ensures
            r == self.millis(),
    {
        self.ms
    }
}

/// Represents a measurement of the millisecond clock.
#[derive(Debug, Clone, Copy, PartialEq, Eq, Structural, PartialOrd, Ord, Hash)]
pub struct Instant(u64);

impl Instant {
    /// The measured counter value, for contracts.
    pub closed spec fn timestamp(self) -> u64 {
        self.0
    }

    pub fn now(clock: &Clock) -> (r: Instant)
        ensures
            r.timestamp() == clock.millis(),
    {
        Instant(clock.ms)
    }

    pub fn since_epoch(&self) -> (r: u64)
        ensures
            r == self.timestamp(),
    {
        self.0
    }

    /// Milliseconds elapsed since this measurement, by wrapping subtraction:
    /// tolerates counter wraparound at the cost of intervals longer than the
    /// counter's range.
    pub fn elapsed_ms(&self, clock: &Clock) -> (r: u64)
        ensures
            clock.millis() >= self.timestamp() ==> r == clock.millis() - self.timestamp(),
            clock.millis() < self.timestamp() ==> r == clock.millis() - self.timestamp()
                + 0x1_0000_0000_0000_0000,
    {
        clock.now_ms().wrapping_sub(self.0)
    }

    /// Milliseconds from `earlier` to this measurement, saturating at zero if
    /// `earlier` is in fact later.
    pub fn duration_since_ms(&self, earlier: Instant) -> (r: u64)
        ensures
            self.timestamp() >= earlier.timestamp() ==> r == self.timestamp()
                - earlier.timestamp(),
            self.timestamp() < earlier.timestamp() ==> r == 0,
    {
        self.0.saturating_sub(earlier.0)
    }

    /// The measurement `ms` milliseconds later, or `None` past the end of the
    /// counter's range.
    pub fn checked_add_ms(&self, ms: u64) -> (r: Option<Instant>)
        ensures
            self.timestamp() + ms <= u64::MAX ==> (r matches Some(i) && i.timestamp()
                == self.timestamp() + ms),
            self.timestamp() + ms > u64::MAX ==> r is None,
    {
        match self.0.checked_add(ms) {
            Some(v) => Some(Instant(v)),
            None => None,
        }
    }

    /// The measurement `ms` milliseconds earlier, or `None` before the epoch.
    pub fn checked_sub_ms(&self, ms: u64) -> (r: Option<Instant>)
        ensures
            self.timestamp() >= ms ==> (r matches Some(i) && i.timestamp() == self.timestamp()
                - ms),
            self.timestamp() < ms ==> r is None,
    {
        match self.0.checked_sub(ms) {
            Some(v) => Some(Instant(v)),
            None => None,
        }
    }

    /// The time elapsed since this measurement, as a duration (see
    /// `elapsed_ms` for the wrapping arithmetic).
    pub fn elapsed(&self, clock: &Clock) -> (r: core::time::Duration)
        ensures
            clock.millis() >= self.timestamp() ==> duration_millis(r) == clock.millis()
                - self.timestamp(),
            clock.millis() < self.timestamp() ==> duration_millis(r) == clock.millis()
                - self.timestamp() + 0x1_0000_0000_0000_0000,
    {
        core::time::Duration::from_millis(self.elapsed_ms(clock))
    }

    /// The time from `earlier` to this measurement, saturating at zero if
    /// `earlier` is in fact later.
    pub fn duration_since(&self, earlier: Instant) -> (r: core::time::Duration)
        ensures
            self.timestamp() >= earlier.timestamp() ==> duration_millis(r) == self.timestamp()
                - earlier.timestamp(),
            self.timestamp() < earlier.timestamp() ==> duration_millis(r) == 0,
    {
        core::time::Duration::from_millis(self.duration_since_ms(earlier))
    }

    /// The measurement `dur` later, or `None` when that overflows the
    /// counter (or `dur` itself exceeds the counter's range).
    pub fn checked_add(&self, dur: core::time::Duration) -> (r: Option<Instant>)
        ensures
            duration_millis(dur) > u64::MAX ==> r is None,
            0 <= duration_millis(dur) <= u64::MAX ==> {
                &&& self.timestamp() + duration_millis(dur) <= u64::MAX ==> (r matches Some(i)
                    && i.timestamp() == self.timestamp() + duration_millis(dur))
                &&& self.timestamp() + duration_millis(dur) > u64::MAX ==> r is None
            },
    {
        let ms128 = dur.as_millis();
        if ms128 > u64::MAX as u128 {
            return None;
        }
        let ms = ms128 as u64;
        self.checked_add_ms(ms)
    }

    /// The measurement `dur` earlier, or `None` before the epoch (or when
    /// `dur` itself exceeds the counter's range).
    pub fn checked_sub(&self, dur: core::time::Duration) -> (r: Option<Instant>)
        ensures
            duration_millis(dur) > u64::MAX ==> r is None,
            0 <= duration_millis(dur) <= u64::MAX ==> {
                &&& self.timestamp() >= duration_millis(dur) ==> (r matches Some(i)
                    && i.timestamp() == self.timestamp() - duration_millis(dur))
                &&& self.timestamp() < duration_millis(dur) ==> r is None
            },
    {
        let ms128 = dur.as_millis();
        if ms128 > u64::MAX as u128 {
            return None;
        }
        let ms = ms128 as u64;
        self.checked_sub_ms(ms)
    }
}

impl From<u64> for Instant {
    fn from(value: u64) -> (r: Instant) {
        Instant(value)
    }
}

impl vstd::std_specs::convert::FromSpecImpl<u64> for Instant {
    open spec fn obeys_from_spec() -> bool {
        true
    }

    closed spec fn from_spec(v: u64) -> Instant {
        Instant(v)
    }
}

/// Converting a raw counter value builds the measurement with exactly
/// that value, so the value round-trips through `From` and
/// `since_epoch`.
pub proof fn lemma_instant_from(v: u64)
    ensures
        (<Instant as vstd::std_specs::convert::FromSpec<u64>>::from_spec(v)).timestamp() == v,
{
}

/// The millisecond reading of an opaque `core::time::Duration`: its
/// whole milliseconds, sub-millisecond parts truncated.
pub uninterp spec fn duration_millis(d: core::time::Duration) -> int;

/// Relies on `core::time::Duration::from_millis`: a duration of exactly
/// the given number of milliseconds.
pub assume_specification [ core::time::Duration::from_millis ](ms: u64) -> (d:
    core::time::Duration)
    ensures
        duration_millis(d) == ms,
;

/// Relies on `core::time::Duration::as_millis`: the duration's whole
/// milliseconds, truncated.
pub assume_specification [ core::time::Duration::as_millis ](d: &core::time::Duration) -> (r:
    u128)
    ensures
        r == duration_millis(*d),
;

/// Advance the clock by exactly one millisecond and deliver every timer
/// wake whose timestamp has arrived — up to and including the new
/// counter value, so a waker registered for timestamp T fires at the
/// very tick that moves the clock to T. Called exactly once per hardware
/// timer interrupt, so the counter never moves except forward by one —
/// the clock is monotonically nondecreasing up to the documented
/// wraparound of its 64-bit counter.
pub fn tick_ms(clock: &mut Clock, timers: &mut TimerWakers, wakes: &mut WakeSet)
    requires
        old(timers).wf(),
        old(wakes).wf(),
    ensures
        final(timers).wf(),
        final(wakes).wf(),
        old(clock).millis() < u64::MAX ==> final(clock).millis() == old(clock).millis() + 1,
        old(clock).millis() == u64::MAX ==> final(clock).millis() == 0,
        forall|t: u64, x: u64| #[trigger]
            final(timers).spec_registered(t, x) <==> (old(timers).spec_registered(t, x) && t
                > final(clock).millis()),
        forall|x: u64| #[trigger]
            final(wakes).spec_contains(x) <==> (old(wakes).spec_contains(x) || (exists|t: u64|
                t <= final(clock).millis() && old(timers).spec_registered(t, x))),
{
    let now = clock.ms.wrapping_add(1);
    clock.ms = now;
    wake_tasks(timers, now, wakes);
}

} // verus!
