//! Cooperative tasks: unique identifiers, the continuation interface the
//! executor polls, and the task record that ties the two together.

use crate::clock::Clock;
use crate::task::executor::WakeSet;
use crate::task::timer::TimerWakers;
use vstd::prelude::*;

pub mod executor;
pub mod keyboard;
pub mod timer;

verus! {

/// A unique ID generated when a task is created.
#[derive(Debug, Clone, Copy, PartialEq, Eq, Structural, PartialOrd, Ord, Hash)]
pub struct TaskId(u64);

/// The monotone counter behind task ID generation: every ID it hands out
/// is distinct from every earlier one.
pub struct TaskIdSource {
    next: u64,
}

impl TaskIdSource {
    pub closed spec fn spec_next(self) -> u64 {
        self.next
    }

    pub fn new() -> (s: TaskIdSource)
        ensures
            s.spec_next() == 0,
    {
        TaskIdSource { next: 0 }
    }

    /// The value the next fresh ID will carry; lets a caller check the
    /// counter's headroom before drawing an ID.
    pub fn peek(&self) -> (r: u64)
        ensures
            r == self.spec_next(),
    {
        self.next
    }
}

impl TaskId {
    pub closed spec fn spec_id(self) -> u64 {
        self.0
    }

    /// Draw a fresh ID: the counter value, which then increases, so no two
    /// calls ever return the same ID.
    pub fn new(source: &mut TaskIdSource) -> (id: TaskId)
        requires
            old(source).spec_next() < u64::MAX,
        ensures
            id.spec_id() == old(source).spec_next(),
            final(source).spec_next() == old(source).spec_next() + 1,
    {
        let id = TaskId(source.next);
        source.next = source.next + 1;
        id
    }

    /// The raw counter value of this ID.
    pub fn as_u64(&self) -> (r: u64)
        ensures
            r == self.spec_id(),
    {
        self.0
    }

    /// Rebuild an ID from its raw value; for the scheduler's own
    /// bookkeeping only.
    pub(crate) fn from_u64(v: u64) -> (id: TaskId)
        ensures
            id.spec_id() == v,
    {
        TaskId(v)
    }
}

/// Outcome of polling a continuation once.
#[derive(Debug, Clone, Copy, PartialEq, Eq, Structural)]
pub enum TaskPoll {
    /// The continuation ran to completion and must not be polled again.
    Ready,
    /// The continuation suspended; it must have registered its waker with
    /// whatever it waits on, or it will never be polled again.
    Pending,
}

/// A suspendable unit of work. Polling runs it until it completes or
/// suspends; a suspending poll is handed the task's own ID to register as
/// a waker, the clock to read, the timer wakers to register with, and the
/// wake set so that it can wake other tasks. A continuation may add
/// wakes, never withdraw the wakes of others.
pub trait Continuation: Sized {
    fn poll(
        &mut self,
        waker: TaskId,
        clock: &Clock,
        timers: &mut TimerWakers,
        wakes: &mut WakeSet,
    ) -> (r: TaskPoll)
        requires
            old(timers).wf(),
            old(wakes).wf(),
        ensures
            final(timers).wf(),
            final(wakes).wf(),
            forall|x: u64| #[trigger]
                old(wakes).spec_contains(x) ==> final(wakes).spec_contains(x),
    ;
}

/// A continuation together with its unique ID, ready to be scheduled.
pub struct Task<C> {
    pub(crate) id: TaskId,
    pub(crate) cont: C,
}

impl<C: Continuation> Task<C> {
    pub closed spec fn spec_id(self) -> TaskId {
        self.id
    }

    /// Wrap a continuation with a fresh ID.
    pub fn new(cont: C, ids: &mut TaskIdSource) -> (t: Task<C>)
        requires
            old(ids).spec_next() < u64::MAX,
        ensures
            t.spec_id().spec_id() == old(ids).spec_next(),
            final(ids).spec_next() == old(ids).spec_next() + 1,
    {
        let id = TaskId::new(ids);
        Task { id, cont }
    }

    /// The unique ID of the task.
    pub fn id(&self) -> (id: TaskId)
        ensures
            id == self.spec_id(),
    {
        self.id
    }
}

} // verus!
