use kernel_core::clock::{tick_ms, Clock, Instant};
use kernel_core::task::executor::WakeSet;
use kernel_core::task::timer::{sleep, sleep_until, wake_tasks, Interval, TimerWakers};
use kernel_core::task::{TaskId, TaskIdSource};
use std::time::Duration;

#[test]
fn clock_starts_at_zero_and_ticks_forward() {
    let mut clock = Clock::new();
    let mut timers = TimerWakers::new();
    let mut wakes = WakeSet::new();
    assert_eq!(clock.now_ms(), 0);
    tick_ms(&mut clock, &mut timers, &mut wakes);
    assert_eq!(clock.now_ms(), 1);
    tick_ms(&mut clock, &mut timers, &mut wakes);
    assert_eq!(clock.now_ms(), 2);
}

#[test]
fn instants_are_monotonic_across_ticks() {
    // A sample taken earlier never exceeds a sample taken later.
    let mut clock = Clock::new();
    let mut timers = TimerWakers::new();
    let mut wakes = WakeSet::new();
    let mut samples: Vec<Instant> = Vec::new();
    for _ in 0..50 {
        samples.push(Instant::now(&clock));
        tick_ms(&mut clock, &mut timers, &mut wakes);
    }
    for pair in samples.windows(2) {
        assert!(pair[0] <= pair[1]);
    }
}

#[test]
fn instant_arithmetic() {
    let mut clock = Clock::new();
    let mut timers = TimerWakers::new();
    let mut wakes = WakeSet::new();
    let t0 = Instant::now(&clock);
    for _ in 0..7 {
        tick_ms(&mut clock, &mut timers, &mut wakes);
    }
    let t7 = Instant::now(&clock);
    assert_eq!(t0.since_epoch(), 0);
    assert_eq!(t7.since_epoch(), 7);
    assert_eq!(t0.elapsed_ms(&clock), 7);
    assert_eq!(t7.elapsed_ms(&clock), 0);
    assert_eq!(t7.duration_since_ms(t0), 7);
    // Saturating: asking for the span the wrong way round gives zero.
    assert_eq!(t0.duration_since_ms(t7), 0);
    assert_eq!(t0.checked_add_ms(5).unwrap().since_epoch(), 5);
    assert_eq!(t7.checked_sub_ms(3).unwrap().since_epoch(), 4);
    assert_eq!(t7.checked_sub_ms(8), None);
    assert_eq!(t7.checked_add_ms(u64::MAX), None);
    // The duration-valued variants agree with the millisecond ones.
    assert_eq!(t0.elapsed(&clock), Duration::from_millis(7));
    assert_eq!(t7.elapsed(&clock), Duration::from_millis(0));
    assert_eq!(t7.duration_since(t0), Duration::from_millis(7));
    assert_eq!(t0.duration_since(t7), Duration::from_millis(0));
    assert_eq!(t0.checked_add(Duration::from_millis(5)).unwrap().since_epoch(), 5);
    assert_eq!(t7.checked_sub(Duration::from_millis(3)).unwrap().since_epoch(), 4);
    assert_eq!(t7.checked_sub(Duration::from_millis(8)), None);
    // A duration beyond the counter's whole range is always rejected.
    assert_eq!(t7.checked_add(Duration::from_secs(u64::MAX)), None);
}

#[test]
fn wake_tasks_fires_due_entries_only() {
    let mut ids = TaskIdSource::new();
    let a = TaskId::new(&mut ids);
    let b = TaskId::new(&mut ids);
    let c = TaskId::new(&mut ids);
    let mut timers = TimerWakers::new();
    timers.register(10, a.as_u64());
    timers.register(5, b.as_u64());
    timers.register(20, c.as_u64());
    let mut wakes = WakeSet::new();
    wake_tasks(&mut timers, 10, &mut wakes);
    // The entries at 5 and 10 fire; the one at 20 stays. The wake set
    // hands the woken IDs out in ascending ID order.
    assert_eq!(wakes.pop_first(), Some(a.as_u64()));
    assert_eq!(wakes.pop_first(), Some(b.as_u64()));
    assert_eq!(wakes.pop_first(), None);
    wake_tasks(&mut timers, 19, &mut wakes);
    assert_eq!(wakes.pop_first(), None);
    wake_tasks(&mut timers, 20, &mut wakes);
    assert_eq!(wakes.pop_first(), Some(c.as_u64()));
}

#[test]
fn entry_is_never_fired_twice() {
    let mut ids = TaskIdSource::new();
    let a = TaskId::new(&mut ids);
    let mut timers = TimerWakers::new();
    timers.register(3, a.as_u64());
    let mut wakes = WakeSet::new();
    wake_tasks(&mut timers, 5, &mut wakes);
    assert_eq!(wakes.pop_first(), Some(a.as_u64()));
    wake_tasks(&mut timers, 100, &mut wakes);
    assert_eq!(wakes.pop_first(), None);
}

#[test]
fn interval_yields_immediately_then_waits() {
    let clock = Clock::new();
    let mut timers = TimerWakers::new();
    let mut ids = TaskIdSource::new();
    let me = TaskId::new(&mut ids);
    let mut iv = Interval::new(10, &clock);
    // The first poll is due at once; the next suspends until one period
    // has elapsed.
    assert_eq!(iv.poll_next(&clock, &mut timers, me), Some(0));
    assert_eq!(iv.poll_next(&clock, &mut timers, me), None);
}

#[test]
fn interval_reset_makes_it_due() {
    let mut clock = Clock::new();
    let mut timers = TimerWakers::new();
    let mut wakes = WakeSet::new();
    let mut ids = TaskIdSource::new();
    let me = TaskId::new(&mut ids);
    let mut iv = Interval::new(1000, &clock);
    assert!(iv.poll_next(&clock, &mut timers, me).is_some());
    for _ in 0..3 {
        tick_ms(&mut clock, &mut timers, &mut wakes);
    }
    assert_eq!(iv.poll_next(&clock, &mut timers, me), None);
    iv.reset(&clock);
    assert_eq!(iv.poll_next(&clock, &mut timers, me), Some(3));
    assert_eq!(iv.period(), 1000);
}

#[test]
fn sleep_waits_for_its_timestamp() {
    let mut clock = Clock::new();
    let mut timers = TimerWakers::new();
    let mut wakes = WakeSet::new();
    let mut ids = TaskIdSource::new();
    let me = TaskId::new(&mut ids);
    assert!(sleep_until(0).is_none());
    for _ in 0..2 {
        tick_ms(&mut clock, &mut timers, &mut wakes);
    }
    let mut s = sleep(5, &clock).unwrap();
    assert_eq!(s.poll_next(&clock, &mut timers, me), None);
    for _ in 0..4 {
        tick_ms(&mut clock, &mut timers, &mut wakes);
    }
    assert!(!wakes.contains(me.as_u64()));
    tick_ms(&mut clock, &mut timers, &mut wakes);
    // Due at 7 ms: delivered at the very tick that reaches 7.
    assert!(wakes.contains(me.as_u64()));
    assert_eq!(s.poll_next(&clock, &mut timers, me), Some(7));
}

#[test]
fn two_intervals_interleave_in_order() {
    // Against a simulated clock advanced tick by tick, a 10 ms
    // interval yields 10 times while a 30 ms interval yields 3 times,
    // each 10 ms yield coming before the same-or-later 30 ms yields.
    let mut clock = Clock::new();
    let mut timers = TimerWakers::new();
    let mut wakes = WakeSet::new();
    let mut ids = TaskIdSource::new();
    let id10 = TaskId::new(&mut ids);
    let id30 = TaskId::new(&mut ids);
    let mut iv10 = Interval::new(10, &clock);
    let mut iv30 = Interval::new(30, &clock);
    // Arm both: consume the immediate first yield, leaving each
    // registered for its first full period.
    assert_eq!(iv10.poll_next(&clock, &mut timers, id10), Some(0));
    assert_eq!(iv10.poll_next(&clock, &mut timers, id10), None);
    assert_eq!(iv30.poll_next(&clock, &mut timers, id30), Some(0));
    assert_eq!(iv30.poll_next(&clock, &mut timers, id30), None);

    let mut events: Vec<(u64, u64)> = Vec::new();
    while clock.now_ms() < 100 {
        tick_ms(&mut clock, &mut timers, &mut wakes);
        while let Some(w) = wakes.pop_first() {
            if w == id10.as_u64() {
                while let Some(ts) = iv10.poll_next(&clock, &mut timers, id10) {
                    events.push((10, ts));
                }
            } else {
                assert_eq!(w, id30.as_u64());
                while let Some(ts) = iv30.poll_next(&clock, &mut timers, id30) {
                    events.push((30, ts));
                }
            }
        }
    }

    let tens: Vec<u64> = events.iter().filter(|e| e.0 == 10).map(|e| e.1).collect();
    let thirties: Vec<u64> = events.iter().filter(|e| e.0 == 30).map(|e| e.1).collect();
    assert_eq!(tens, vec![10, 20, 30, 40, 50, 60, 70, 80, 90, 100]);
    assert_eq!(thirties, vec![30, 60, 90]);
    // Each 10 ms yield precedes every 30 ms yield with the same or a
    // later timestamp.
    for (i, e) in events.iter().enumerate() {
        if e.0 == 30 {
            for later in events.iter().skip(i + 1) {
                if later.0 == 10 {
                    assert!(later.1 > e.1);
                }
            }
        }
    }
}
