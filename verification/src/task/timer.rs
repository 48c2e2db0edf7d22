//! Timer wakers: tasks suspended until a clock timestamp.
//!
//! A timestamp-ordered table maps each target millisecond to the wake
//! handles registered for it; the clock's tick delivers every entry whose
//! timestamp has arrived. `Interval` is the suspend-until-timestamp
//! primitive built on top.

use crate::clock::Clock;
use crate::task::executor::WakeSet;
use crate::task::{Continuation, TaskId, TaskPoll};
use vstd::prelude::*;

verus! {

/// The wake handles registered for one target timestamp.
pub struct TimerEntry {
    pub timestamp: u64,
    pub ids: Vec<u64>,
}

/// Entries strictly ordered by timestamp.
pub open spec fn entries_sorted(s: Seq<TimerEntry>) -> bool {
    forall|i: int|
        0 <= i && i + 1 < s.len() ==> (#[trigger] s[i]).timestamp < s[i + 1].timestamp
}

/// Whether `id` is registered for timestamp `ts` somewhere in the table.
pub open spec fn registered_in(s: Seq<TimerEntry>, ts: u64, id: u64) -> bool {
    exists|i: int|
        0 <= i < s.len() && (#[trigger] s[i]).timestamp == ts && s[i].ids@.contains(id)
}

/// The timestamp-ordered table of timer registrations.
pub struct TimerWakers {
    entries: Vec<TimerEntry>,
}

impl TimerWakers {
    pub closed spec fn spec_entries(self) -> Seq<TimerEntry> {
        self.entries@
    }

    /// Entries are strictly ordered by timestamp and none is empty.
    pub open spec fn wf(self) -> bool {
        &&& entries_sorted(self.spec_entries())
        &&& forall|i: int|
            0 <= i < self.spec_entries().len() ==> (#[trigger] self.spec_entries()[i]).ids@.len()
                > 0
    }

    /// Whether `id` is registered to be woken at `ts`.
    pub open spec fn spec_registered(self, ts: u64, id: u64) -> bool {
        registered_in(self.spec_entries(), ts, id)
    }

    /// An empty table.
    pub fn new() -> (t: TimerWakers)
        ensures
            t.wf(),
            t.spec_entries().len() == 0,
    {
        TimerWakers { entries: Vec::new() }
    }

    /// Register `id` to be woken once timestamp `ts` has arrived, behind
    /// any handle already registered for that exact timestamp.
    #[verifier::rlimit(100)]
    #[verifier::spinoff_prover]
    pub fn register(&mut self, ts: u64, id: u64)
        requires
            old(self).wf(),
        ensures
            final(self).wf(),
            forall|t: u64, x: u64| #[trigger]
                final(self).spec_registered(t, x) <==> (old(self).spec_registered(t, x) || (t == ts
                    && x == id)),
    {
        let ghost s0 = self.entries@;
        let mut k: usize = 0;
        while k < self.entries.len() && self.entries[k].timestamp < ts
            invariant
                self.entries@ == s0,
                0 <= k <= s0.len(),
                forall|j: int| 0 <= j < k ==> (#[trigger] s0[j]).timestamp < ts,
            decreases s0.len() - k,
        {
            k = k + 1;
        }
        if k < self.entries.len() && self.entries[k].timestamp == ts {
            // Chain behind the handles already waiting on this timestamp.
            self.entries[k].ids.push(id);
            proof {
                let t = self.entries@;
                lemma_register_existing(s0, t, k as int, ts, id);
            }
        } else {
            let mut ids: Vec<u64> = Vec::new();
            ids.push(id);
            let entry = TimerEntry { timestamp: ts, ids };
            self.entries.insert(k, entry);
            proof {
                let t = self.entries@;
                assert(k < s0.len() ==> s0[k as int].timestamp > ts);
                assert(entry.ids@ =~= seq![id]);
                lemma_register_fresh(s0, t, entry, k as int, ts, id);
            }
        }
    }
}

/// Appending a handle to the entry that already serves its timestamp adds
/// exactly that one registration.
#[verifier::rlimit(100)]
#[verifier::spinoff_prover]
proof fn lemma_register_existing(s0: Seq<TimerEntry>, t: Seq<TimerEntry>, k: int, ts: u64, id: u64)
    requires
        entries_sorted(s0),
        forall|i: int| 0 <= i < s0.len() ==> (#[trigger] s0[i]).ids@.len() > 0,
        0 <= k < s0.len(),
        s0[k].timestamp == ts,
        t.len() == s0.len(),
        forall|j: int| 0 <= j < t.len() && j != k ==> #[trigger] t[j] == s0[j],
        t[k].timestamp == ts,
        t[k].ids@ == s0[k].ids@.push(id),
    ensures
        entries_sorted(t),
        forall|i: int| 0 <= i < t.len() ==> (#[trigger] t[i]).ids@.len() > 0,
        forall|tt: u64, x: u64| #[trigger]
            registered_in(t, tt, x) <==> (registered_in(s0, tt, x) || (tt == ts && x == id)),
{
    assert forall|i: int| 0 <= i && i + 1 < t.len() implies (#[trigger] t[i]).timestamp < t[
        i + 1
    ].timestamp by {
        if i != k {
            assert(t[i] == s0[i]);
        }
        if i + 1 != k {
            assert(t[i + 1] == s0[i + 1]);
        }
    }
    assert forall|tt: u64, x: u64| #[trigger]
        registered_in(t, tt, x) <==> (registered_in(s0, tt, x) || (tt == ts && x == id)) by {
        if registered_in(t, tt, x) {
            let j = choose|j: int|
                0 <= j < t.len() && (#[trigger] t[j]).timestamp == tt && t[j].ids@.contains(x);
            if j != k {
                assert(t[j] == s0[j]);
                assert(s0[j].timestamp == tt && s0[j].ids@.contains(x));
                assert(registered_in(s0, tt, x));
            } else {
                let m = choose|m: int| 0 <= m < t[k].ids@.len() && t[k].ids@[m] == x;
                if m < s0[k].ids@.len() {
                    assert(s0[k].ids@[m] == x);
                    assert(s0[k].ids@.contains(x));
                    assert(registered_in(s0, tt, x));
                } else {
                    assert(x == id && tt == ts);
                }
            }
        }
        if registered_in(s0, tt, x) {
            let j = choose|j: int|
                0 <= j < s0.len() && (#[trigger] s0[j]).timestamp == tt && s0[j].ids@.contains(x);
            if j != k {
                assert(t[j] == s0[j]);
                assert(t[j].timestamp == tt && t[j].ids@.contains(x));
            } else {
                let m = choose|m: int| 0 <= m < s0[k].ids@.len() && s0[k].ids@[m] == x;
                assert(t[k].ids@[m] == x);
                assert(t[k].ids@.contains(x));
            }
            assert(registered_in(t, tt, x));
        }
        if tt == ts && x == id {
            assert(t[k].ids@.last() == id);
            assert(t[k].ids@.contains(id));
            assert(registered_in(t, tt, x));
        }
    }
}

/// Inserting a fresh singleton entry at the sorted position adds exactly
/// one registration.
#[verifier::rlimit(100)]
#[verifier::spinoff_prover]
proof fn lemma_register_fresh(
    s0: Seq<TimerEntry>,
    t: Seq<TimerEntry>,
    entry: TimerEntry,
    k: int,
    ts: u64,
    id: u64,
)
    requires
        entries_sorted(s0),
        forall|i: int| 0 <= i < s0.len() ==> (#[trigger] s0[i]).ids@.len() > 0,
        0 <= k <= s0.len(),
        forall|j: int| 0 <= j < k ==> (#[trigger] s0[j]).timestamp < ts,
        k < s0.len() ==> s0[k].timestamp > ts,
        entry.timestamp == ts,
        entry.ids@ == seq![id],
        t == s0.insert(k, entry),
    ensures
        entries_sorted(t),
        forall|i: int| 0 <= i < t.len() ==> (#[trigger] t[i]).ids@.len() > 0,
        forall|tt: u64, x: u64| #[trigger]
            registered_in(t, tt, x) <==> (registered_in(s0, tt, x) || (tt == ts && x == id)),
{
    assert forall|j: int| 0 <= j < t.len() implies #[trigger] t[j] == (if j < k {
        s0[j]
    } else if j == k {
        entry
    } else {
        s0[j - 1]
    }) by {}
    assert forall|i: int| 0 <= i && i + 1 < t.len() implies (#[trigger] t[i]).timestamp < t[
        i + 1
    ].timestamp by {}
    assert forall|i: int| 0 <= i < t.len() implies (#[trigger] t[i]).ids@.len() > 0 by {}
    assert forall|tt: u64, x: u64| #[trigger]
        registered_in(t, tt, x) <==> (registered_in(s0, tt, x) || (tt == ts && x == id)) by {
        if registered_in(t, tt, x) {
            let j = choose|j: int|
                0 <= j < t.len() && (#[trigger] t[j]).timestamp == tt && t[j].ids@.contains(x);
            if j < k {
                assert(s0[j].timestamp == tt && s0[j].ids@.contains(x));
                assert(registered_in(s0, tt, x));
            } else if j > k {
                assert(s0[j - 1].timestamp == tt && s0[j - 1].ids@.contains(x));
                assert(registered_in(s0, tt, x));
            } else {
                assert(x == id && tt == ts);
            }
        }
        if registered_in(s0, tt, x) {
            let j = choose|j: int|
                0 <= j < s0.len() && (#[trigger] s0[j]).timestamp == tt && s0[j].ids@.contains(x);
            if j < k {
                assert(t[j].timestamp == tt && t[j].ids@.contains(x));
            } else {
                assert(t[j + 1].timestamp == tt && t[j + 1].ids@.contains(x));
            }
            assert(registered_in(t, tt, x));
        }
        if tt == ts && x == id {
            assert(t[k].ids@[0] == id);
            assert(t[k].ids@.contains(id));
            assert(registered_in(t, tt, x));
        }
    }
}

/// After cutting the due prefix, what remains registered is exactly what
/// was registered for a later timestamp.
proof fn lemma_wake_cut_timers(g0: Seq<TimerEntry>, d: int, timestamp: u64)
    requires
        entries_sorted(g0),
        0 <= d <= g0.len(),
        forall|j: int| 0 <= j < d ==> (#[trigger] g0[j]).timestamp <= timestamp,
        d < g0.len() ==> g0[d].timestamp > timestamp,
    ensures
        forall|t: u64, x: u64| #[trigger]
            registered_in(g0.skip(d), t, x) <==> (registered_in(g0, t, x) && t > timestamp),
{
    let rem = g0.skip(d);
    assert forall|i: int| 0 <= i < rem.len() implies #[trigger] rem[i] == g0[d + i] by {}
    assert forall|i: int| 0 <= i < rem.len() implies (#[trigger] rem[i]).timestamp > timestamp by {
        if i > 0 {
            lemma_entries_sorted_below(g0, d, d + i);
        }
    }
    assert forall|t: u64, x: u64| #[trigger]
        registered_in(rem, t, x) <==> (registered_in(g0, t, x) && t > timestamp) by {
        if registered_in(rem, t, x) {
            let i = choose|i: int|
                0 <= i < rem.len() && (#[trigger] rem[i]).timestamp == t && rem[i].ids@.contains(x);
            assert(g0[d + i].timestamp == t && g0[d + i].ids@.contains(x));
            assert(registered_in(g0, t, x));
        }
        if registered_in(g0, t, x) && t > timestamp {
            let j = choose|j: int|
                0 <= j < g0.len() && (#[trigger] g0[j]).timestamp == t && g0[j].ids@.contains(x);
            assert(j >= d);
            assert(rem[j - d].timestamp == t && rem[j - d].ids@.contains(x));
            assert(registered_in(rem, t, x));
        }
    }
}

/// The IDs collected from the due prefix are exactly those registered for
/// a due timestamp.
proof fn lemma_wake_cut_wakes(
    g0: Seq<TimerEntry>,
    d: int,
    timestamp: u64,
    w0: WakeSet,
    w1: WakeSet,
)
    requires
        entries_sorted(g0),
        0 <= d <= g0.len(),
        forall|j: int| 0 <= j < d ==> (#[trigger] g0[j]).timestamp <= timestamp,
        d < g0.len() ==> g0[d].timestamp > timestamp,
        forall|x: u64| #[trigger]
            w1.spec_contains(x) <==> (w0.spec_contains(x) || (exists|j: int|
                0 <= j < d && (#[trigger] g0[j]).ids@.contains(x))),
    ensures
        forall|x: u64| #[trigger]
            w1.spec_contains(x) <==> (w0.spec_contains(x) || (exists|t: u64|
                t <= timestamp && registered_in(g0, t, x))),
{
    assert forall|x: u64| #[trigger]
        w1.spec_contains(x) <==> (w0.spec_contains(x) || (exists|t: u64|
            t <= timestamp && registered_in(g0, t, x))) by {
        if w1.spec_contains(x) && !w0.spec_contains(x) {
            let j = choose|j: int| 0 <= j < d && (#[trigger] g0[j]).ids@.contains(x);
            assert(registered_in(g0, g0[j].timestamp, x));
            assert(g0[j].timestamp <= timestamp);
        }
        if exists|t: u64| t <= timestamp && registered_in(g0, t, x) {
            let t = choose|t: u64| t <= timestamp && registered_in(g0, t, x);
            let j = choose|j: int|
                0 <= j < g0.len() && (#[trigger] g0[j]).timestamp == t && g0[j].ids@.contains(x);
            if j >= d {
                if j > d {
                    lemma_entries_sorted_below(g0, d, j);
                }
                assert(g0[j].timestamp > timestamp);
                assert(false);
            }
            assert(w1.spec_contains(x));
        }
    }
}

/// Wake every task registered for a timestamp at or before `timestamp`:
/// deliver the due entries in increasing timestamp order, each exactly
/// once, into the wake set; registrations for later timestamps stay.
#[verifier::rlimit(100)]
#[verifier::spinoff_prover]
pub fn wake_tasks(timers: &mut TimerWakers, timestamp: u64, wakes: &mut WakeSet)
    requires
        old(timers).wf(),
        old(wakes).wf(),
    ensures
        final(timers).wf(),
        final(wakes).wf(),
        forall|t: u64, x: u64| #[trigger]
            final(timers).spec_registered(t, x) <==> (old(timers).spec_registered(t, x) && t
                > timestamp),
        forall|x: u64| #[trigger]
            final(wakes).spec_contains(x) <==> (old(wakes).spec_contains(x) || (exists|t: u64|
                t <= timestamp && old(timers).spec_registered(t, x))),
{
    let ghost g0 = old(timers).spec_entries();
    let ghost w0 = *old(wakes);
    let ghost mut d: int = 0;
    while timers.entries.len() > 0 && timers.entries[0].timestamp <= timestamp
        invariant
            timers.wf(),
            wakes.wf(),
            0 <= d <= g0.len(),
            timers.spec_entries() == g0.skip(d),
            w0.wf(),
            g0 == old(timers).spec_entries(),
            w0 == *old(wakes),
            entries_sorted(g0),
            forall|j: int| 0 <= j < d ==> (#[trigger] g0[j]).timestamp <= timestamp,
            forall|x: u64| #[trigger]
                wakes.spec_contains(x) <==> (w0.spec_contains(x) || (exists|j: int|
                    0 <= j < d && (#[trigger] g0[j]).ids@.contains(x))),
        decreases timers.spec_entries().len(),
    {
        let entry = timers.entries.remove(0);
        proof {
            assert(entry == g0[d]);
            assert(timers.spec_entries() =~= g0.skip(d + 1));
        }
        let ghost w1 = *wakes;
        let mut m: usize = 0;
        while m < entry.ids.len()
            invariant
                wakes.wf(),
                w1.wf(),
                0 <= m <= entry.ids@.len(),
                forall|x: u64| #[trigger]
                    wakes.spec_contains(x) <==> (w1.spec_contains(x)
                        || entry.ids@.take(m as int).contains(x)),
            decreases entry.ids@.len() - m,
        {
            let id = entry.ids[m];
            wakes.insert(id);
            proof {
                assert forall|x: u64| entry.ids@.take(m + 1).contains(x) implies (entry.ids@.take(
                    m as int,
                ).contains(x) || x == id) by {
                    let j = choose|j: int|
                        0 <= j < entry.ids@.take(m + 1).len() && (#[trigger] entry.ids@.take(
                            m + 1,
                        )[j]) == x;
                    if j < m {
                        assert(entry.ids@.take(m as int)[j] == x);
                    }
                }
                assert forall|x: u64| entry.ids@.take(m as int).contains(x) implies entry.ids@.take(
                    m + 1,
                ).contains(x) by {
                    let j = choose|j: int|
                        0 <= j < m && (#[trigger] entry.ids@.take(m as int)[j]) == x;
                    assert(entry.ids@.take(m + 1)[j] == x);
                }
                assert(entry.ids@.take(m + 1).contains(id)) by {
                    assert(entry.ids@.take(m + 1)[m as int] == id);
                }
            }
            m = m + 1;
        }
        proof {
            assert(entry.ids@.take(entry.ids@.len() as int) =~= entry.ids@);
            d = d + 1;
            assert forall|x: u64| #[trigger]
                wakes.spec_contains(x) <==> (w0.spec_contains(x) || (exists|j: int|
                    0 <= j < d && (#[trigger] g0[j]).ids@.contains(x))) by {
                if wakes.spec_contains(x) {
                    if !w1.spec_contains(x) {
                        assert(entry.ids@.contains(x));
                        assert(g0[d - 1].ids@.contains(x));
                    } else if !w0.spec_contains(x) {
                        let j = choose|j: int|
                            0 <= j < d - 1 && (#[trigger] g0[j]).ids@.contains(x);
                        assert(g0[j].ids@.contains(x));
                    }
                }
                if exists|j: int| 0 <= j < d && (#[trigger] g0[j]).ids@.contains(x) {
                    let j = choose|j: int| 0 <= j < d && (#[trigger] g0[j]).ids@.contains(x);
                    if j < d - 1 {
                        assert(w1.spec_contains(x));
                    } else {
                        assert(entry.ids@.contains(x));
                    }
                    assert(wakes.spec_contains(x));
                }
                if w0.spec_contains(x) {
                    assert(w1.spec_contains(x));
                    assert(wakes.spec_contains(x));
                }
            }
        }
    }
    proof {
        if timers.spec_entries().len() > 0 {
            assert(timers.spec_entries()[0] == g0[d]);
        }
        lemma_wake_cut_timers(g0, d, timestamp);
        lemma_wake_cut_wakes(g0, d, timestamp, w0, *wakes);
        assert forall|x: u64| #[trigger]
            wakes.spec_contains(x) <==> (w0.spec_contains(x) || (exists|t: u64|
                t <= timestamp && old(timers).spec_registered(t, x))) by {
            if exists|t: u64| t <= timestamp && old(timers).spec_registered(t, x) {
                let t = choose|t: u64| t <= timestamp && old(timers).spec_registered(t, x);
                assert(t <= timestamp && registered_in(g0, t, x));
            }
            if exists|t: u64| t <= timestamp && registered_in(g0, t, x) {
                let t = choose|t: u64| t <= timestamp && registered_in(g0, t, x);
                assert(t <= timestamp && old(timers).spec_registered(t, x));
            }
        }
    }
}

/// In a timestamp-sorted entry list, earlier entries are earlier in time.
proof fn lemma_entries_sorted_below(s: Seq<TimerEntry>, i: int, j: int)
    requires
        entries_sorted(s),
        0 <= i < j < s.len(),
    ensures
        s[i].timestamp < s[j].timestamp,
    decreases j - i,
{
    if i + 1 < j {
        lemma_entries_sorted_below(s, i + 1, j);
    }
}

/// A periodic timer: yields once per elapsed period, advancing by exactly
/// one period per yield (never to "now") so that no tick is lost to
/// drift.
pub struct Interval {
    last: u64,
    interval: u64,
}

impl Interval {
    pub closed spec fn spec_last(self) -> u64 {
        self.last
    }

    pub closed spec fn spec_interval(self) -> u64 {
        self.interval
    }

    /// A zero-length period would yield forever without waiting.
    pub open spec fn wf(self) -> bool {
        self.spec_interval() >= 1
    }

    /// The next timestamp at which this interval is due (one period past
    /// the last yield, wrapping).
    pub open spec fn spec_target(self) -> u64 {
        if self.spec_last() + self.spec_interval() <= u64::MAX {
            (self.spec_last() + self.spec_interval()) as u64
        } else {
            (self.spec_last() + self.spec_interval() - 0x1_0000_0000_0000_0000) as u64
        }
    }

    /// An interval that yields every `ms` milliseconds, the first time
    /// immediately: its last yield is backdated one period.
    pub fn new(ms: u64, clock: &Clock) -> (iv: Interval)
        requires
            ms >= 1,
        ensures
            iv.wf(),
            iv.spec_interval() == ms,
            iv.spec_target() == clock.millis(),
    {
        Interval { last: clock.now_ms().wrapping_sub(ms), interval: ms }
    }

    /// The period in milliseconds.
    pub fn period(&self) -> (r: u64)
        ensures
            r == self.spec_interval(),
    {
        self.interval
    }

    /// Backdate the interval so that it is due immediately, as if freshly
    /// created.
    pub fn reset(&mut self, clock: &Clock)
        ensures
            final(self).spec_interval() == old(self).spec_interval(),
            final(self).spec_target() == clock.millis(),
    {
        self.last = clock.now_ms().wrapping_sub(self.interval);
    }

    /// Poll the interval: if its target timestamp has arrived, advance by
    /// exactly one period and yield the target; otherwise register the
    /// waker to fire at the target timestamp and suspend.
    pub fn poll_next(&mut self, clock: &Clock, timers: &mut TimerWakers, waker: TaskId) -> (r:
        Option<u64>)
        requires
            old(self).wf(),
            old(timers).wf(),
        ensures
            final(self).wf(),
            final(timers).wf(),
            final(self).spec_interval() == old(self).spec_interval(),
            clock.millis() >= old(self).spec_target() ==> r == Some(old(self).spec_target())
                && final(self).spec_last() == old(self).spec_target()
                && *final(timers) == *old(timers),
            clock.millis() < old(self).spec_target() ==> r is None && final(self).spec_last()
                == old(self).spec_last() && (forall|t: u64, x: u64| #[trigger]
                final(timers).spec_registered(t, x) <==> (old(timers).spec_registered(t, x) || (t
                    == old(self).spec_target() && x == waker.spec_id()))),
    {
        let timestamp = self.last.wrapping_add(self.interval);
        if clock.now_ms() >= timestamp {
            self.last = timestamp;
            return Some(timestamp);
        }
        timers.register(timestamp, waker.as_u64());
        None
    }
}

/// A single-shot timer due once the clock reaches `timestamp`: an
/// interval whose only tick arrives at that timestamp. `None` when the
/// timestamp is zero — that moment has already passed, so there is
/// nothing to wait for.
pub fn sleep_until(timestamp: u64) -> (r: Option<Interval>)
    ensures
        timestamp == 0 ==> r is None,
        timestamp >= 1 ==> (r matches Some(iv) && iv.wf() && iv.spec_target() == timestamp),
{
    if timestamp == 0 {
        return None;
    }
    Some(Interval { last: 0, interval: timestamp })
}

/// A single-shot timer due `ms` milliseconds from now. `None` when there
/// is nothing to wait for.
pub fn sleep(ms: u64, clock: &Clock) -> (r: Option<Interval>)
    requires
        clock.millis() + ms <= u64::MAX,
    ensures
        clock.millis() + ms == 0 ==> r is None,
        clock.millis() + ms >= 1 ==> (r matches Some(iv) && iv.wf() && iv.spec_target()
            == clock.millis() + ms),
{
    sleep_until(clock.now_ms() + ms)
}

/// A continuation that waits on an interval and completes after a fixed
/// number of yields.
pub struct IntervalTicker {
    interval: Interval,
    remaining: u64,
}

impl IntervalTicker {
    pub closed spec fn spec_remaining(self) -> u64 {
        self.remaining
    }

    /// Tick `ticks` times on `interval`, then complete.
    pub fn new(interval: Interval, ticks: u64) -> (t: IntervalTicker)
        ensures
            t.spec_remaining() == ticks,
    {
        IntervalTicker { interval, remaining: ticks }
    }
}

impl Continuation for IntervalTicker {
    fn poll(
        &mut self,
        waker: TaskId,
        clock: &Clock,
        timers: &mut TimerWakers,
        wakes: &mut WakeSet,
    ) -> (r: TaskPoll) {
        if self.interval.period() == 0 {
            // A degenerate period would never wait: finish instead.
            return TaskPoll::Ready;
        }
        loop
            invariant
                timers.wf(),
                wakes.wf(),
                self.interval.wf(),
                forall|x: u64| #[trigger]
                    old(wakes).spec_contains(x) ==> wakes.spec_contains(x),
            decreases self.remaining,
        {
            if self.remaining == 0 {
                return TaskPoll::Ready;
            }
            match self.interval.poll_next(clock, timers, waker) {
                Some(_) => {
                    self.remaining = self.remaining - 1;
                },
                None => {
                    return TaskPoll::Pending;
                },
            }
        }
    }
}

} // verus!
