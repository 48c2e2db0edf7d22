use kernel_core::arrayvec::ArrayVec;
use kernel_core::clock::{Clock, Instant};
use kernel_core::spinlock::lazylock::LazyLock;
use kernel_core::spinlock::lazystatic::{InitStatus, LazyStatic};
use kernel_core::spinlock::{DisableInterrupts, InterruptFlag, SpinLock};
use kernel_core::task::executor::{Executor, PollOutcome, Spawner, TaskWaker, WakeSet};
use kernel_core::task::keyboard::ScancodeStream;
use kernel_core::task::timer::{Interval, IntervalTicker, TimerWakers};
use kernel_core::task::{Continuation, Task, TaskId, TaskIdSource, TaskPoll};

/// A continuation that completes on its first poll.
struct Immediate;

impl Continuation for Immediate {
    fn poll(
        &mut self,
        _waker: TaskId,
        _clock: &Clock,
        _timers: &mut TimerWakers,
        _wakes: &mut WakeSet,
    ) -> TaskPoll {
        TaskPoll::Ready
    }
}

/// A continuation that suspends forever without registering anywhere.
struct Dormant;

impl Continuation for Dormant {
    fn poll(
        &mut self,
        _waker: TaskId,
        _clock: &Clock,
        _timers: &mut TimerWakers,
        _wakes: &mut WakeSet,
    ) -> TaskPoll {
        TaskPoll::Pending
    }
}

enum TestTask {
    Immediate(Immediate),
    Dormant(Dormant),
    Ticker(IntervalTicker),
}

impl Continuation for TestTask {
    fn poll(
        &mut self,
        waker: TaskId,
        clock: &Clock,
        timers: &mut TimerWakers,
        wakes: &mut WakeSet,
    ) -> TaskPoll {
        match self {
            TestTask::Immediate(c) => c.poll(waker, clock, timers, wakes),
            TestTask::Dormant(c) => c.poll(waker, clock, timers, wakes),
            TestTask::Ticker(c) => c.poll(waker, clock, timers, wakes),
        }
    }
}

#[test]
fn wake_set_is_sorted_and_unique() {
    let mut w = WakeSet::new();
    assert!(w.is_empty());
    w.insert(5);
    w.insert(3);
    w.insert(5);
    w.insert(9);
    assert_eq!(w.len(), 3);
    assert!(w.contains(3) && w.contains(5) && w.contains(9));
    assert!(!w.contains(4));
    assert_eq!(w.pop_first(), Some(3));
    assert_eq!(w.pop_first(), Some(5));
    assert_eq!(w.pop_first(), Some(9));
    assert_eq!(w.pop_first(), None);
}

#[test]
fn task_ids_are_fresh_and_increasing() {
    let mut ids = TaskIdSource::new();
    let a = TaskId::new(&mut ids);
    let b = TaskId::new(&mut ids);
    let c = TaskId::new(&mut ids);
    assert_eq!(a.as_u64(), 0);
    assert_eq!(b.as_u64(), 1);
    assert_eq!(c.as_u64(), 2);
    assert!(a < b && b < c);
}

#[test]
fn completed_task_is_removed_and_never_polled_again() {
    // A task that completes on its first poll is gone after one pass,
    // and a later wake of its ID is discarded as stale.
    let clock = Clock::new();
    let mut timers = TimerWakers::new();
    let mut ids = TaskIdSource::new();
    let mut exec: Executor<TestTask> = Executor::new();
    let mut spawner: Spawner<TestTask> = Spawner::new(8);
    let task = Task::new(TestTask::Immediate(Immediate), &mut ids);
    let id = task.id();
    exec.spawn(task);
    assert!(exec.has_tasks());
    match exec.poll_one(&mut spawner, &clock, &mut timers) {
        PollOutcome::Completed(done) => assert_eq!(done, id),
        other => panic!("expected completion, got {:?}", other),
    }
    assert!(!exec.has_tasks());
    assert_eq!(exec.poll_one(&mut spawner, &clock, &mut timers), PollOutcome::Idle);
    // A stale wake is tolerated and ignored.
    exec.wake(id);
    assert_eq!(exec.poll_one(&mut spawner, &clock, &mut timers), PollOutcome::Stale(id));
    assert_eq!(exec.poll_one(&mut spawner, &clock, &mut timers), PollOutcome::Idle);
}

#[test]
fn waking_twice_polls_once() {
    // Several wakes between polls cause exactly one re-poll.
    let clock = Clock::new();
    let mut timers = TimerWakers::new();
    let mut ids = TaskIdSource::new();
    let mut exec: Executor<TestTask> = Executor::new();
    let mut spawner: Spawner<TestTask> = Spawner::new(8);
    let task = Task::new(TestTask::Dormant(Dormant), &mut ids);
    let id = task.id();
    exec.spawn(task);
    // Drain the spawn-time wake.
    assert_eq!(exec.poll_one(&mut spawner, &clock, &mut timers), PollOutcome::Suspended(id));
    assert_eq!(exec.poll_one(&mut spawner, &clock, &mut timers), PollOutcome::Idle);
    // Wake the task three times, via its wake handle and directly.
    let waker = TaskWaker::new_waker(id);
    waker.wake_task(exec.wake_set_mut());
    waker.wake_task(exec.wake_set_mut());
    exec.wake(id);
    // Exactly one re-poll results.
    assert_eq!(exec.poll_one(&mut spawner, &clock, &mut timers), PollOutcome::Suspended(id));
    assert_eq!(exec.poll_one(&mut spawner, &clock, &mut timers), PollOutcome::Idle);
}

#[test]
fn spawner_queue_is_drained_fifo() {
    let clock = Clock::new();
    let mut timers = TimerWakers::new();
    let mut ids = TaskIdSource::new();
    let mut exec: Executor<TestTask> = Executor::new();
    let mut spawner: Spawner<TestTask> = Spawner::new(64);
    spawner.spawn(TestTask::Immediate(Immediate), &mut ids);
    spawner.spawn(TestTask::Immediate(Immediate), &mut ids);
    spawner.spawn_task(Task::new(TestTask::Immediate(Immediate), &mut ids));
    assert_eq!(spawner.len(), 3);
    exec.poll_spawner(&mut spawner);
    assert_eq!(spawner.len(), 0);
    assert!(exec.has_tasks());
    // The three tasks complete in ascending ID order.
    for expect in 0..3u64 {
        match exec.poll_one(&mut spawner, &clock, &mut timers) {
            PollOutcome::Completed(done) => assert_eq!(done.as_u64(), expect),
            other => panic!("expected completion, got {:?}", other),
        }
    }
    assert!(!exec.has_tasks());
}

#[test]
fn run_until_idle_completes_interval_ticker() {
    // A ticker task waits on a 10 ms interval three times and exits; the
    // executor outlives it driven by simulated timer interrupts.
    let mut clock = Clock::new();
    let mut timers = TimerWakers::new();
    let mut ids = TaskIdSource::new();
    let mut exec: Executor<TestTask> = Executor::new();
    let mut spawner: Spawner<TestTask> = Spawner::new(8);
    let iv = Interval::new(10, &clock);
    let ticker = IntervalTicker::new(iv, 3);
    spawner.spawn(TestTask::Ticker(ticker), &mut ids);
    let mut passes: u64 = 0;
    let mut polled: u64 = 0;
    while exec.has_tasks() || spawner.len() > 0 {
        let (idle, trace) = exec.run_until_idle(&mut spawner, &clock, &mut timers, 1000);
        assert!(idle);
        // Only the final outcome of a pass may be the idle probe.
        for step in &trace[..trace.len().saturating_sub(1)] {
            assert!(!matches!(step, PollOutcome::Idle));
        }
        polled += trace
            .iter()
            .filter(|s| matches!(s, PollOutcome::Suspended(_) | PollOutcome::Completed(_)))
            .count() as u64;
        if !exec.has_tasks() {
            break;
        }
        // The executor would halt here; the timer interrupt resumes it.
        kernel_core::clock::tick_ms(&mut clock, &mut timers, exec.wake_set_mut());
        passes += 1;
        assert!(passes < 100, "ticker task failed to finish");
    }
    assert!(!exec.has_tasks());
    // Yields at 0, 10 and 20 ms, each wake delivered at the tick that
    // reaches its timestamp: the task is done once the clock hits 20.
    assert_eq!(passes, 20);
    // The ticker was polled once per wake: at admission, and per yield.
    assert_eq!(polled, 3);
}

#[test]
fn try_lock_fails_while_held() {
    let mut cpu = InterruptFlag::new(true);
    let mut lock: SpinLock<u64, DisableInterrupts> = SpinLock::disable_interrupts(7);
    assert!(!lock.locked());
    assert!(lock.try_lock(&mut cpu));
    assert!(lock.locked());
    assert!(!cpu.enabled);
    // A second attempt — an interrupt handler, say — cannot get in.
    assert!(!lock.try_lock(&mut cpu));
    *lock.get_mut() = 8;
    lock.unlock(&mut cpu);
    assert!(cpu.enabled);
    assert!(!lock.locked());
    assert!(lock.try_lock(&mut cpu));
    assert_eq!(*lock.get_mut(), 8);
    lock.unlock(&mut cpu);
}

#[test]
fn critical_sections_never_interleave() {
    // A counter incremented non-atomically only inside the lock comes
    // out exact; attempts to intrude while the lock is held all fail.
    let mut cpu = InterruptFlag::new(true);
    let mut lock: SpinLock<u64> = SpinLock::new(0);
    let mut refused: u64 = 0;
    for _ in 0..100 {
        lock.lock(&mut cpu);
        let v = *lock.get_mut();
        // An "interrupt" arriving mid-section cannot take the lock, so it
        // can never observe or disturb the half-done update.
        if !lock.try_lock(&mut cpu) {
            refused += 1;
        }
        *lock.get_mut() = v + 1;
        lock.unlock(&mut cpu);
    }
    lock.lock(&mut cpu);
    assert_eq!(*lock.get_mut(), 100);
    lock.unlock(&mut cpu);
    assert_eq!(refused, 100);
}

#[test]
fn lazy_static_initializes_exactly_once() {
    let mut cell: LazyStatic<u64> = LazyStatic::new();
    assert_eq!(cell.status(), InitStatus::Uninit);
    assert_eq!(cell.get_if_init(), None);
    assert_eq!(cell.insert_if_uninit(42), Ok(()));
    assert_eq!(cell.status(), InitStatus::Init);
    assert_eq!(cell.get_if_init(), Some(&42));
    // A second initializer never runs: the value comes back.
    assert_eq!(cell.insert_if_uninit(99), Err(99));
    assert_eq!(cell.get_if_init(), Some(&42));
    cell.force(123);
    assert_eq!(cell.get_if_init(), Some(&42));
    let mut other: LazyStatic<u64> = LazyStatic::new();
    other.force(123);
    assert_eq!(other.get_if_init(), Some(&123));
}

#[test]
fn scancode_queue_drops_newest_on_overflow() {
    // Pushing capacity + 1 scancodes drops exactly the last one and
    // the first `capacity` still come out in FIFO order.
    let mut stream = ScancodeStream::new();
    let mut wakes = WakeSet::new();
    let mut ids = TaskIdSource::new();
    let me = TaskId::new(&mut ids);
    for i in 0..64u8 {
        assert!(stream.add_scancode(i, &mut wakes));
    }
    assert!(!stream.add_scancode(64, &mut wakes), "overflow byte must be dropped");
    for i in 0..64u8 {
        assert_eq!(stream.poll_next(me), Some(i));
    }
    assert_eq!(stream.poll_next(me), None);
}

#[test]
fn scancode_consumer_is_woken_by_producer() {
    let mut stream = ScancodeStream::new();
    let mut wakes = WakeSet::new();
    let mut ids = TaskIdSource::new();
    let me = TaskId::new(&mut ids);
    // The consumer polls an empty queue: it suspends with its waker
    // registered.
    assert_eq!(stream.poll_next(me), None);
    // The interrupt handler delivers a byte and wakes the consumer.
    assert!(stream.add_scancode(0x1c, &mut wakes));
    assert!(wakes.contains(me.as_u64()));
    assert_eq!(stream.poll_next(me), Some(0x1c));
}

#[test]
fn array_vec_respects_capacity() {
    let mut v: ArrayVec<u32, 3> = ArrayVec::new();
    assert!(v.is_empty());
    assert_eq!(v.spare_capacity(), 3);
    v.push(1);
    assert_eq!(v.try_push(2), Ok(()));
    v.push(3);
    assert!(v.is_full());
    assert_eq!(v.try_push(4), Err(4));
    // The forgiving push silently drops the overflow.
    v.push(5);
    assert_eq!(v.len(), 3);
    assert_eq!(*v.get(0), 1);
    assert_eq!(*v.get(2), 3);
    assert_eq!(v.pop(), Some(3));
    assert_eq!(v.pop(), Some(2));
    v.clear();
    assert_eq!(v.pop(), None);
}

#[test]
fn array_vec_extend_stops_at_capacity() {
    let mut v: ArrayVec<u32, 4> = ArrayVec::new();
    v.push(0);
    v.extend(vec![1, 2, 3, 4, 5]);
    assert_eq!(v.len(), 4);
    assert_eq!(*v.get(1), 1);
    assert_eq!(*v.get(3), 3);
}

#[test]
fn poll_one_admits_queued_spawns_first() {
    // A single scheduling step drains the inbound spawn queue before it
    // polls, so a freshly sent task runs without a separate admission
    // call.
    let clock = Clock::new();
    let mut timers = TimerWakers::new();
    let mut ids = TaskIdSource::new();
    let mut exec: Executor<TestTask> = Executor::new();
    let mut spawner: Spawner<TestTask> = Spawner::new(8);
    spawner.spawn(TestTask::Immediate(Immediate), &mut ids);
    assert!(!exec.has_tasks());
    match exec.poll_one(&mut spawner, &clock, &mut timers) {
        PollOutcome::Completed(done) => assert_eq!(done.as_u64(), 0),
        other => panic!("expected completion, got {:?}", other),
    }
    assert_eq!(spawner.len(), 0);
    assert_eq!(exec.poll_one(&mut spawner, &clock, &mut timers), PollOutcome::Idle);
}

#[test]
fn id_source_exposes_its_counter() {
    let mut ids = TaskIdSource::new();
    assert_eq!(ids.peek(), 0);
    let _ = TaskId::new(&mut ids);
    assert_eq!(ids.peek(), 1);
    assert!(ids.peek() < u64::MAX);
}

#[test]
fn instant_from_value_round_trips() {
    let t = Instant::from(41);
    assert_eq!(t.since_epoch(), 41);
    assert_eq!(Instant::from(t.since_epoch()), t);
}

#[test]
fn lazy_lock_initializes_under_the_lock() {
    let mut cpu = InterruptFlag::new(true);
    let mut cell: LazyLock<u64> = LazyLock::new();
    cell.lock(&mut cpu);
    assert_eq!(cell.get_mut().status(), InitStatus::Uninit);
    cell.get_mut().force(9);
    assert_eq!(cell.get_mut().get_if_init(), Some(&9));
    cell.unlock(&mut cpu);
    assert!(cpu.enabled);
    // The published value survives; a later initializer never runs.
    cell.lock(&mut cpu);
    cell.get_mut().force(10);
    assert_eq!(cell.get_mut().get_if_init(), Some(&9));
    cell.unlock(&mut cpu);
}
