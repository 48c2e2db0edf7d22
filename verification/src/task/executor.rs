//! The cooperative single-threaded executor: a task table, an ordered
//! wake set of task IDs due for re-polling, and a bounded inbound queue of
//! freshly spawned tasks.

use crate::clock::Clock;
use crate::spinlock::InterruptFlag;
use crate::task::timer::TimerWakers;
use crate::task::{Continuation, Task, TaskId, TaskIdSource, TaskPoll};
use vstd::prelude::*;

verus! {

/// The set of task IDs due for re-polling, kept sorted and duplicate-free
/// so that waking is idempotent: waking an already-woken task changes
/// nothing, and a drain pass polls each woken task exactly once.
pub struct WakeSet {
    ids: Vec<u64>,
}

impl WakeSet {
    pub closed spec fn spec_ids(self) -> Seq<u64> {
        self.ids@
    }

    /// Sorted strictly: no duplicates.
    pub open spec fn wf(self) -> bool {
        forall|i: int|
            0 <= i && i + 1 < self.spec_ids().len() ==> #[trigger] self.spec_ids()[i]
                < self.spec_ids()[i + 1]
    }

    pub open spec fn spec_contains(self, id: u64) -> bool {
        self.spec_ids().contains(id)
    }

    pub fn new() -> (s: WakeSet)
        ensures
            s.wf(),
            s.spec_ids().len() == 0,
    {
        WakeSet { ids: Vec::new() }
    }

    pub fn is_empty(&self) -> (r: bool)
        ensures
            r <==> self.spec_ids().len() == 0,
    {
        self.ids.is_empty()
    }

    pub fn len(&self) -> (r: usize)
        ensures
            r == self.spec_ids().len(),
    {
        self.ids.len()
    }

    pub fn contains(&self, id: u64) -> (r: bool)
        requires
            self.wf(),
        ensures
            r == self.spec_contains(id),
    {
        let mut k: usize = 0;
        while k < self.ids.len()
            invariant
                0 <= k <= self.ids@.len(),
                forall|j: int| 0 <= j < k ==> #[trigger] self.ids@[j] != id,
            decreases self.ids@.len() - k,
        {
            if self.ids[k] == id {
                proof {
                    assert(self.spec_ids()[k as int] == id);
                }
                return true;
            }
            k = k + 1;
        }
        proof {
            if self.spec_ids().contains(id) {
                let j = choose|j: int| 0 <= j < self.spec_ids().len() && self.spec_ids()[j] == id;
                assert(self.ids@[j] != id);
            }
        }
        false
    }

    /// Mark a task as due for re-polling. Idempotent: inserting an ID that
    /// is already pending leaves the set exactly as it was, so several
    /// wakes between polls cause exactly one re-poll.
    #[verifier::rlimit(100)]
    #[verifier::spinoff_prover]
    pub fn insert(&mut self, id: u64)
        requires
            old(self).wf(),
        ensures
            final(self).wf(),
            forall|x: u64| final(self).spec_contains(x) <==> (old(self).spec_contains(x) || x
                == id),
            old(self).spec_contains(id) ==> *final(self) == *old(self),
            !old(self).spec_contains(id) ==> final(self).spec_ids().len() == old(self).spec_ids().len() + 1,
    {
        let ghost s0 = self.ids@;
        let mut k: usize = 0;
        while k < self.ids.len() && self.ids[k] < id
            invariant
                self.ids@ == s0,
                0 <= k <= s0.len(),
                forall|j: int| 0 <= j < k ==> #[trigger] s0[j] < id,
            decreases s0.len() - k,
        {
            k = k + 1;
        }
        if k < self.ids.len() {
            let here = self.ids[k];
            if here == id {
                // Already pending: nothing to do.
                proof {
                    assert(s0[k as int] == id);
                    assert(old(self).spec_contains(id));
                    assert forall|x: u64| final(self).spec_contains(x) <==> (old(self).spec_contains(x) || x == id) by {}
                }
                return ;
            }
        }
        self.ids.insert(k, id);
        proof {
            let t = self.ids@;
            assert(t == s0.insert(k as int, id));
            assert forall|j: int| 0 <= j < t.len() implies t[j] == (if j < k {
                s0[j]
            } else if j == k {
                id
            } else {
                s0[j - 1]
            }) by {}
            // Sortedness: everything before the insertion point is below
            // `id`, everything at or after it is above.
            assert(k < s0.len() ==> s0[k as int] > id);
            assert forall|i: int| 0 <= i && i + 1 < t.len() implies #[trigger] t[i] < t[i + 1] by {
                if i + 1 < k {
                } else if i + 1 == k {
                } else if i == k {
                } else {
                }
            }
            // Contents: the old IDs plus `id`.
            assert forall|x: u64| final(self).spec_contains(x) <==> (old(self).spec_contains(x)
                || x == id) by {
                if t.contains(x) {
                    let j = choose|j: int| 0 <= j < t.len() && t[j] == x;
                    if j < k {
                        assert(s0[j] == x);
                        assert(s0.contains(x));
                    } else if j > k {
                        assert(s0[j - 1] == x);
                        assert(s0.contains(x));
                    }
                }
                if s0.contains(x) {
                    let j = choose|j: int| 0 <= j < s0.len() && s0[j] == x;
                    if j < k {
                        assert(t[j] == x);
                    } else {
                        assert(t[j + 1] == x);
                    }
                    assert(t.contains(x));
                }
                if x == id {
                    assert(t[k as int] == x);
                    assert(t.contains(x));
                }
            }
            if s0.contains(id) {
                let j = choose|j: int| 0 <= j < s0.len() && s0[j] == id;
                assert(j >= k);
                if j > k {
                    lemma_sorted_below(s0, k as int, j);
                }
                assert(false);
            }
        }
    }

    /// Remove and return the smallest pending ID.
    pub fn pop_first(&mut self) -> (r: Option<u64>)
        requires
            old(self).wf(),
        ensures
            final(self).wf(),
            old(self).spec_ids().len() == 0 ==> r is None && *final(self) == *old(self),
            old(self).spec_ids().len() > 0 ==> r == Some(old(self).spec_ids()[0]) && final(self).spec_ids() == old(self).spec_ids().drop_first(),
            r matches Some(id) ==> forall|x: u64| old(self).spec_contains(x) ==> id <= x,
    {
        if self.ids.is_empty() {
            return None;
        }
        let id = self.ids.remove(0);
        proof {
            let s0 = old(self).spec_ids();
            assert(final(self).spec_ids() =~= s0.drop_first());
            assert forall|x: u64| old(self).spec_contains(x) implies id <= x by {
                let j = choose|j: int| 0 <= j < s0.len() && s0[j] == x;
                if j > 0 {
                    lemma_sorted_below(s0, 0, j);
                }
            }
            assert forall|i: int| 0 <= i && i + 1 < final(self).spec_ids().len() implies #[trigger]
            final(self).spec_ids()[i] < final(self).spec_ids()[i + 1] by {
                assert(final(self).spec_ids()[i] == s0[i + 1]);
                assert(final(self).spec_ids()[i + 1] == s0[i + 2]);
            }
        }
        Some(id)
    }
}

/// Waking leaves no trace of how often it happened: two well-formed wake
/// sets with the same members are identical. Together with the
/// idempotence of `WakeSet::insert` this says that any number of wakes of
/// a task between two polls leaves exactly one pending entry — one
/// re-poll, not several.
pub proof fn lemma_wake_set_canonical(a: WakeSet, b: WakeSet)
    requires
        a.wf(),
        b.wf(),
        forall|x: u64| a.spec_contains(x) <==> b.spec_contains(x),
    ensures
        a.spec_ids() == b.spec_ids(),
{
    assert forall|x: u64| a.spec_ids().contains(x) <==> b.spec_ids().contains(x) by {
        assert(a.spec_contains(x) <==> b.spec_contains(x));
    }
    lemma_sorted_unique_canonical(a.spec_ids(), b.spec_ids());
}

/// Strictly sorted sequences are canonical: equal membership means equal
/// sequences.
proof fn lemma_sorted_unique_canonical(sa: Seq<u64>, sb: Seq<u64>)
    requires
        forall|i: int| 0 <= i && i + 1 < sa.len() ==> #[trigger] sa[i] < sa[i + 1],
        forall|i: int| 0 <= i && i + 1 < sb.len() ==> #[trigger] sb[i] < sb[i + 1],
        forall|x: u64| sa.contains(x) <==> sb.contains(x),
    ensures
        sa == sb,
    decreases sa.len(),
{
    if sa.len() == 0 {
        if sb.len() > 0 {
            assert(sb.contains(sb[0]));
            assert(sa.contains(sb[0]));
            let j = choose|j: int| 0 <= j < sa.len() && sa[j] == sb[0];
            assert(false);
        }
        assert(sa =~= sb);
    } else {
        assert(sa.contains(sa[0]));
        assert(sb.contains(sa[0]));
        let j = choose|j: int| 0 <= j < sb.len() && sb[j] == sa[0];
        if j > 0 {
            lemma_sorted_below(sb, 0, j);
        }
        assert(sb.contains(sb[0]));
        assert(sa.contains(sb[0]));
        let k = choose|k: int| 0 <= k < sa.len() && sa[k] == sb[0];
        if k > 0 {
            lemma_sorted_below(sa, 0, k);
        }
        // The heads are each other's lower bounds, so they are equal.
        assert(sa[0] == sb[0]);
        let ta = sa.drop_first();
        let tb = sb.drop_first();
        assert forall|i: int| 0 <= i && i + 1 < ta.len() implies #[trigger] ta[i] < ta[i + 1] by {
            assert(ta[i] == sa[i + 1] && ta[i + 1] == sa[i + 2]);
        }
        assert forall|i: int| 0 <= i && i + 1 < tb.len() implies #[trigger] tb[i] < tb[i + 1] by {
            assert(tb[i] == sb[i + 1] && tb[i + 1] == sb[i + 2]);
        }
        // A tail's members are exactly the members above the head.
        assert forall|x: u64| ta.contains(x) <==> (sa.contains(x) && x > sa[0]) by {
            if ta.contains(x) {
                let m = choose|m: int| 0 <= m < ta.len() && ta[m] == x;
                assert(sa[m + 1] == x);
                assert(sa.contains(x));
                lemma_sorted_below(sa, 0, m + 1);
            }
            if sa.contains(x) && x > sa[0] {
                let m = choose|m: int| 0 <= m < sa.len() && sa[m] == x;
                assert(m != 0);
                assert(ta[m - 1] == x);
                assert(ta.contains(x));
            }
        }
        assert forall|x: u64| tb.contains(x) <==> (sb.contains(x) && x > sb[0]) by {
            if tb.contains(x) {
                let m = choose|m: int| 0 <= m < tb.len() && tb[m] == x;
                assert(sb[m + 1] == x);
                assert(sb.contains(x));
                lemma_sorted_below(sb, 0, m + 1);
            }
            if sb.contains(x) && x > sb[0] {
                let m = choose|m: int| 0 <= m < sb.len() && sb[m] == x;
                assert(m != 0);
                assert(tb[m - 1] == x);
                assert(tb.contains(x));
            }
        }
        lemma_sorted_unique_canonical(ta, tb);
        assert(sa.len() == sb.len());
        assert forall|i: int| 0 <= i < sa.len() implies sa[i] == sb[i] by {
            if i > 0 {
                assert(sa[i] == ta[i - 1]);
                assert(sb[i] == tb[i - 1]);
            }
        }
        assert(sa =~= sb);
    }
}

/// In a sorted ID list, earlier entries are smaller.
proof fn lemma_sorted_below(s: Seq<u64>, i: int, j: int)
    requires
        forall|k: int| 0 <= k && k + 1 < s.len() ==> #[trigger] s[k] < s[k + 1],
        0 <= i < j < s.len(),
    ensures
        s[i] < s[j],
    decreases j - i,
{
    if i + 1 < j {
        lemma_sorted_below(s, i + 1, j);
    }
}

/// A task's wake handle: it closes over the task's ID and, when invoked,
/// marks that ID for re-polling. Waking is idempotent, and waking a task
/// that no longer exists is a tolerated no-op at poll time.
#[derive(Debug, Clone, Copy, PartialEq, Eq, Structural)]
pub struct TaskWaker {
    id: TaskId,
}

impl TaskWaker {
    pub closed spec fn spec_id(self) -> TaskId {
        self.id
    }

    /// The wake handle for the task with the given ID.
    pub fn new_waker(id: TaskId) -> (w: TaskWaker)
        ensures
            w.spec_id() == id,
    {
        TaskWaker { id }
    }

    /// Wake the task: insert its ID into the wake set.
    pub fn wake_task(&self, wakes: &mut WakeSet)
        requires
            old(wakes).wf(),
        ensures
            final(wakes).wf(),
            forall|x: u64| final(wakes).spec_contains(x) <==> (old(wakes).spec_contains(x) || x
                == self.spec_id().spec_id()),
            old(wakes).spec_contains(self.spec_id().spec_id()) ==> *final(wakes) == *old(wakes),
    {
        wakes.insert(self.id.as_u64());
    }
}

/// A fixed-capacity FIFO queue.
pub struct BoundedQueue<T> {
    items: Vec<T>,
    cap: usize,
}

impl<T> BoundedQueue<T> {
    pub closed spec fn spec_items(self) -> Seq<T> {
        self.items@
    }

    pub closed spec fn spec_cap(self) -> usize {
        self.cap
    }

    pub open spec fn wf(self) -> bool {
        self.spec_items().len() <= self.spec_cap()
    }

    pub fn new(cap: usize) -> (q: BoundedQueue<T>)
        ensures
            q.wf(),
            q.spec_items().len() == 0,
            q.spec_cap() == cap,
    {
        BoundedQueue { items: Vec::new(), cap }
    }

    pub fn len(&self) -> (r: usize)
        ensures
            r == self.spec_items().len(),
    {
        self.items.len()
    }

    pub fn is_full(&self) -> (r: bool)
        ensures
            r <==> self.spec_items().len() >= self.spec_cap(),
    {
        self.items.len() >= self.cap
    }

    /// Append at the back, or hand the value back when the queue is full —
    /// the newest element is the one dropped on overflow.
    pub fn try_push(&mut self, value: T) -> (r: Result<(), T>)
        requires
            old(self).wf(),
        ensures
            final(self).wf(),
            final(self).spec_cap() == old(self).spec_cap(),
            old(self).spec_items().len() < old(self).spec_cap() ==> r is Ok && final(self).spec_items() == old(self).spec_items().push(value),
            old(self).spec_items().len() >= old(self).spec_cap() ==> final(self).spec_items()
                == old(self).spec_items() && (r matches Err(v) && v == value),
    {
        if self.items.len() < self.cap {
            self.items.push(value);
            Ok(())
        } else {
            Err(value)
        }
    }

    /// Remove and return the oldest element.
    pub fn pop(&mut self) -> (r: Option<T>)
        requires
            old(self).wf(),
        ensures
            final(self).wf(),
            final(self).spec_cap() == old(self).spec_cap(),
            old(self).spec_items().len() == 0 ==> r is None && final(self).spec_items() == old(self).spec_items(),
            old(self).spec_items().len() > 0 ==> (r matches Some(v) && v == old(self).spec_items()[0]) && final(self).spec_items() == old(self).spec_items().drop_first(),
    {
        if self.items.is_empty() {
            return None;
        }
        let v = self.items.remove(0);
        proof {
            assert(final(self).spec_items() =~= old(self).spec_items().drop_first());
        }
        Some(v)
    }
}


/// What one scheduling step did.
#[derive(Debug, Clone, Copy, PartialEq, Eq, Structural)]
pub enum PollOutcome {
    /// The wake set was empty: nothing to do until an interrupt.
    Idle,
    /// The woken ID no longer names a task; the stale wake was discarded.
    Stale(TaskId),
    /// The task ran to completion and was removed; it will never be
    /// polled again.
    Completed(TaskId),
    /// The task suspended and stays in the table.
    Suspended(TaskId),
}

/// The task the outcome names, if any.
pub open spec fn outcome_id(r: PollOutcome) -> Option<TaskId> {
    match r {
        PollOutcome::Idle => None,
        PollOutcome::Stale(t) => Some(t),
        PollOutcome::Completed(t) => Some(t),
        PollOutcome::Suspended(t) => Some(t),
    }
}

/// A handle for sending tasks to an executor: the bounded inbound spawn
/// queue that the executor drains.
pub struct Spawner<C> {
    queue: BoundedQueue<Task<C>>,
}

impl<C: Continuation> Spawner<C> {
    pub closed spec fn spec_tasks(self) -> Seq<Task<C>> {
        self.queue.spec_items()
    }

    pub closed spec fn spec_cap(self) -> usize {
        self.queue.spec_cap()
    }

    pub open spec fn wf(self) -> bool {
        self.spec_tasks().len() <= self.spec_cap()
    }

    /// A spawn queue for at most `capacity` not-yet-admitted tasks.
    pub fn new(capacity: usize) -> (s: Spawner<C>)
        ensures
            s.wf(),
            s.spec_tasks().len() == 0,
            s.spec_cap() == capacity,
    {
        Spawner { queue: BoundedQueue::new(capacity) }
    }

    pub fn len(&self) -> (r: usize)
        ensures
            r == self.spec_tasks().len(),
    {
        self.queue.len()
    }

    /// Send a task to the executor. A full queue means the executor is not
    /// draining it — a fatal misconfiguration, so the caller must check
    /// first.
    pub fn spawn_task(&mut self, task: Task<C>)
        requires
            old(self).wf(),
            old(self).spec_tasks().len() < old(self).spec_cap(),
        ensures
            final(self).wf(),
            final(self).spec_cap() == old(self).spec_cap(),
            final(self).spec_tasks() == old(self).spec_tasks().push(task),
    {
        let r = self.queue.try_push(task);
        proof {
            assert(r is Ok);
        }
    }

    /// Wrap a continuation in a task with a fresh ID and send it.
    pub fn spawn(&mut self, cont: C, ids: &mut TaskIdSource)
        requires
            old(self).wf(),
            old(self).spec_tasks().len() < old(self).spec_cap(),
            old(ids).spec_next() < u64::MAX,
        ensures
            final(self).wf(),
            final(self).spec_cap() == old(self).spec_cap(),
            final(self).spec_tasks().len() == old(self).spec_tasks().len() + 1,
            final(self).spec_tasks().drop_last() == old(self).spec_tasks(),
            final(self).spec_tasks().last().spec_id().spec_id() == old(ids).spec_next(),
            final(ids).spec_next() == old(ids).spec_next() + 1,
    {
        let task = Task::new(cont, ids);
        self.spawn_task(task);
        proof {
            assert(final(self).spec_tasks().drop_last() =~= old(self).spec_tasks());
        }
    }
}

/// Whether any task in the sequence carries this raw ID.
pub open spec fn tasks_have_id<C: Continuation>(q: Seq<Task<C>>, x: u64) -> bool {
    exists|i: int| 0 <= i < q.len() && (#[trigger] q[i]).spec_id().spec_id() == x
}

/// How one scheduling step transforms the task table: an idle or stale
/// step leaves it alone, completion removes the named task, suspension
/// keeps it (with its continuation advanced, at the table's end).
pub open spec fn poll_outcome_step<C: Continuation>(
    before: Seq<Task<C>>,
    r: PollOutcome,
    after: Seq<Task<C>>,
) -> bool {
    match r {
        PollOutcome::Idle => after == before,
        PollOutcome::Stale(t) => after == before && !tasks_have_id(before, t.spec_id()),
        PollOutcome::Completed(t) => exists|k: int|
            0 <= k < before.len() && (#[trigger] before[k]).spec_id() == t && after
                == before.remove(k),
        PollOutcome::Suspended(t) => exists|k: int|
            0 <= k < before.len() && (#[trigger] before[k]).spec_id() == t && after.len()
                == before.len() && after.drop_last() == before.remove(k) && after.last().spec_id()
                == t,
    }
}

/// The task table evolves from `start` to `end` through the outcomes, in
/// order: what a run's returned trace attests.
pub open spec fn poll_trace<C: Continuation>(
    start: Seq<Task<C>>,
    outcomes: Seq<PollOutcome>,
    end: Seq<Task<C>>,
) -> bool
    decreases outcomes.len(),
{
    if outcomes.len() == 0 {
        end == start
    } else {
        exists|between: Seq<Task<C>>|
            #[trigger] poll_outcome_step(start, outcomes[0], between) && poll_trace(
                between,
                outcomes.drop_first(),
                end,
            )
    }
}

/// A trace grows at its end: one more step extends it.
proof fn lemma_poll_trace_snoc<C: Continuation>(
    start: Seq<Task<C>>,
    outcomes: Seq<PollOutcome>,
    between: Seq<Task<C>>,
    r: PollOutcome,
    end: Seq<Task<C>>,
)
    requires
        poll_trace(start, outcomes, between),
        poll_outcome_step(between, r, end),
    ensures
        poll_trace(start, outcomes.push(r), end),
    decreases outcomes.len(),
{
    let o2 = outcomes.push(r);
    if outcomes.len() == 0 {
        assert(between == start);
        assert(o2[0] == r);
        assert(o2.drop_first() =~= Seq::<PollOutcome>::empty());
        assert(poll_trace(end, o2.drop_first(), end));
        assert(poll_outcome_step(start, o2[0], end));
        assert(poll_trace(start, o2, end));
    } else {
        let m1 = choose|m: Seq<Task<C>>|
            #[trigger] poll_outcome_step(start, outcomes[0], m) && poll_trace(
                m,
                outcomes.drop_first(),
                between,
            );
        lemma_poll_trace_snoc(m1, outcomes.drop_first(), between, r, end);
        assert(o2[0] == outcomes[0]);
        assert(o2.drop_first() =~= outcomes.drop_first().push(r));
        assert(poll_outcome_step(start, o2[0], m1));
        assert(poll_trace(m1, o2.drop_first(), end));
        assert(poll_trace(start, o2, end));
    }
}

/// The executor: the task table and the wake set. A task is polled only
/// while its ID is in the table; the moment its continuation completes it
/// is removed and its ID never reappears.
pub struct Executor<C> {
    tasks: Vec<Task<C>>,
    wake_set: WakeSet,
}

impl<C: Continuation> Executor<C> {
    pub closed spec fn spec_tasks(self) -> Seq<Task<C>> {
        self.tasks@
    }

    pub closed spec fn spec_wakes(self) -> WakeSet {
        self.wake_set
    }

    /// Whether the table holds a task with this raw ID.
    pub open spec fn has_task(self, id: u64) -> bool {
        tasks_have_id(self.spec_tasks(), id)
    }

    /// Task IDs are unique in the table and the wake set is well-formed.
    pub open spec fn wf(self) -> bool {
        &&& self.spec_wakes().wf()
        &&& forall|i: int, j: int|
            0 <= i < j < self.spec_tasks().len() ==> (#[trigger] self.spec_tasks()[i]).spec_id().spec_id()
                != (#[trigger] self.spec_tasks()[j]).spec_id().spec_id()
    }

    /// An executor with no tasks.
    pub fn new() -> (e: Executor<C>)
        ensures
            e.wf(),
            e.spec_tasks().len() == 0,
            e.spec_wakes().spec_ids().len() == 0,
    {
        Executor { tasks: Vec::new(), wake_set: WakeSet::new() }
    }

    pub fn has_tasks(&self) -> (r: bool)
        ensures
            r <==> self.spec_tasks().len() > 0,
    {
        self.tasks.len() > 0
    }

    pub fn has_woken_tasks(&self) -> (r: bool)
        ensures
            r <==> self.spec_wakes().spec_ids().len() > 0,
    {
        !self.wake_set.is_empty()
    }

    /// Wake the task with the given ID: idempotent, and harmless for a
    /// task that no longer exists (the stale wake is discarded at poll
    /// time).
    pub fn wake(&mut self, id: TaskId)
        requires
            old(self).wf(),
        ensures
            final(self).wf(),
            final(self).spec_tasks() == old(self).spec_tasks(),
            forall|x: u64| final(self).spec_wakes().spec_contains(x) <==> (old(self).spec_wakes().spec_contains(x) || x == id.spec_id()),
    {
        self.wake_set.insert(id.as_u64());
        proof {
            assert forall|i: int, j: int|
                0 <= i < j < self.spec_tasks().len() implies (#[trigger] self.spec_tasks()[i]).spec_id().spec_id() != (#[trigger] self.spec_tasks()[j]).spec_id().spec_id() by {
                assert(old(self).spec_tasks()[i] == self.spec_tasks()[i]);
                assert(old(self).spec_tasks()[j] == self.spec_tasks()[j]);
            }
        }
    }

    /// The wake set itself, for the interrupt paths (the clock tick and
    /// the event queues) that deliver wakes from outside the executor.
    pub fn wake_set_mut(&mut self) -> (w: &mut WakeSet)
        ensures
            *w == old(self).spec_wakes(),
            final(self).spec_wakes() == *final(w),
            final(self).spec_tasks() == old(self).spec_tasks(),
    {
        &mut self.wake_set
    }

    /// Admit a task: it enters the table and is immediately woken, so the
    /// next pass polls it. A duplicate ID is a programming error.
    pub fn spawn(&mut self, task: Task<C>)
        requires
            old(self).wf(),
            !old(self).has_task(task.spec_id().spec_id()),
        ensures
            final(self).wf(),
            final(self).spec_tasks() == old(self).spec_tasks().push(task),
            forall|x: u64| final(self).spec_wakes().spec_contains(x) <==> (old(self).spec_wakes().spec_contains(x) || x == task.spec_id().spec_id()),
    {
        let id = task.id();
        self.tasks.push(task);
        self.wake_set.insert(id.as_u64());
        proof {
            let t = self.tasks@;
            let t0 = old(self).spec_tasks();
            assert forall|i: int, j: int|
                0 <= i < j < t.len() implies (#[trigger] t[i]).spec_id().spec_id() != (#[trigger] t[j]).spec_id().spec_id() by {
                if j < t.len() - 1 {
                    assert(t[i] == t0[i] && t[j] == t0[j]);
                } else {
                    assert(t[i] == t0[i]);
                    assert(t[j] == task);
                    if t0[i].spec_id().spec_id() == task.spec_id().spec_id() {
                        assert(old(self).has_task(task.spec_id().spec_id()));
                        assert(false);
                    }
                }
            }
        }
    }

    /// Drain the inbound spawn queue, admitting every queued task in FIFO
    /// order.
    #[verifier::rlimit(100)]
    #[verifier::spinoff_prover]
    pub fn poll_spawner(&mut self, spawner: &mut Spawner<C>)
        requires
            old(self).wf(),
            old(spawner).wf(),
            forall|i: int, j: int|
                0 <= i < j < old(spawner).spec_tasks().len() ==> (#[trigger] old(spawner).spec_tasks()[i]).spec_id().spec_id() != (#[trigger] old(spawner).spec_tasks()[j]).spec_id().spec_id(),
            forall|i: int|
                0 <= i < old(spawner).spec_tasks().len() ==> !old(self).has_task(
                    (#[trigger] old(spawner).spec_tasks()[i]).spec_id().spec_id(),
                ),
        ensures
            final(self).wf(),
            final(spawner).wf(),
            final(spawner).spec_tasks().len() == 0,
            final(spawner).spec_cap() == old(spawner).spec_cap(),
            final(self).spec_tasks() == old(self).spec_tasks() + old(spawner).spec_tasks(),
            forall|x: u64| #[trigger]
                final(self).spec_wakes().spec_contains(x) <==> (old(self).spec_wakes().spec_contains(x) || tasks_have_id(old(spawner).spec_tasks(), x)),
    {
        let ghost t0 = self.tasks@;
        let ghost q0 = spawner.spec_tasks();
        let ghost w0 = self.wake_set;
        let ghost mut n: int = 0;
        while spawner.queue.len() > 0
            invariant
                self.wf(),
                spawner.wf(),
                0 <= n <= q0.len(),
                self.spec_tasks() == t0 + q0.take(n),
                spawner.spec_tasks() == q0.skip(n),
                spawner.spec_cap() == old(spawner).spec_cap(),
                t0 == old(self).spec_tasks(),
                q0 == old(spawner).spec_tasks(),
                w0 == old(self).spec_wakes(),
                forall|x: u64| #[trigger]
                    self.spec_wakes().spec_contains(x) <==> (w0.spec_contains(x) || tasks_have_id(
                        q0.take(n),
                        x,
                    )),
                forall|i: int, j: int|
                    0 <= i < j < q0.len() ==> (#[trigger] q0[i]).spec_id().spec_id() != (
                    #[trigger] q0[j]).spec_id().spec_id(),
                forall|i: int|
                    0 <= i < q0.len() ==> !old(self).has_task(
                        (#[trigger] q0[i]).spec_id().spec_id(),
                    ),
            decreases spawner.spec_tasks().len(),
        {
            let next = spawner.queue.pop().unwrap();
            proof {
                assert(next == q0[n]);
                assert(spawner.spec_tasks() =~= q0.skip(n + 1));
                // The next task's ID is neither in the table as it stood nor
                // among the tasks admitted so far.
                if self.has_task(next.spec_id().spec_id()) {
                    let k = choose|k: int|
                        0 <= k < self.spec_tasks().len() && (#[trigger] self.spec_tasks()[k]).spec_id().spec_id()
                            == next.spec_id().spec_id();
                    if k < t0.len() {
                        assert(t0[k] == self.spec_tasks()[k]);
                        assert(old(self).has_task(q0[n].spec_id().spec_id()));
                        assert(false);
                    } else {
                        assert(self.spec_tasks()[k] == q0[k - t0.len()]);
                        assert(false);
                    }
                }
            }
            let ghost wprev = self.spec_wakes();
            self.spawn(next);
            proof {
                n = n + 1;
                assert(self.spec_tasks() =~= t0 + q0.take(n));
                // The admitted IDs so far are exactly the drained prefix.
                assert forall|x: u64| #[trigger]
                    self.spec_wakes().spec_contains(x) <==> (w0.spec_contains(x) || tasks_have_id(
                        q0.take(n),
                        x,
                    )) by {
                    if self.spec_wakes().spec_contains(x) && !w0.spec_contains(x) {
                        if x != next.spec_id().spec_id() {
                            let i = choose|i: int|
                                0 <= i < n - 1 && (#[trigger] q0.take(n - 1)[i]).spec_id().spec_id()
                                    == x;
                            assert(q0.take(n)[i].spec_id().spec_id() == x);
                            assert(tasks_have_id(q0.take(n), x));
                        } else {
                            assert(q0.take(n)[n - 1].spec_id().spec_id() == x);
                            assert(tasks_have_id(q0.take(n), x));
                        }
                    }
                    if tasks_have_id(q0.take(n), x) {
                        let i = choose|i: int|
                            0 <= i < n && (#[trigger] q0.take(n)[i]).spec_id().spec_id() == x;
                        if i < n - 1 {
                            assert(q0.take(n - 1)[i].spec_id().spec_id() == x);
                            assert(tasks_have_id(q0.take(n - 1), x));
                            assert(wprev.spec_contains(x));
                        } else {
                            assert(x == next.spec_id().spec_id());
                        }
                        assert(self.spec_wakes().spec_contains(x));
                    }
                    if w0.spec_contains(x) {
                        assert(wprev.spec_contains(x));
                        assert(self.spec_wakes().spec_contains(x));
                    }
                }
            }
        }
        proof {
            assert(q0.skip(n) =~= Seq::<Task<C>>::empty());
            assert(n == q0.len());
            assert(q0.take(q0.len() as int) =~= q0);
            assert(self.spec_tasks() == t0 + q0);
        }
    }

    /// One scheduling step: admit every queued spawn (each entering the
    /// table woken, so it starts ready), then take the smallest woken ID
    /// and poll its task. A completed task is removed from the table at
    /// once and, since IDs are never reissued, it can never be polled
    /// again; a stale wake is discarded; a suspended task stays, its ID
    /// and everything else in the table unchanged.
    #[verifier::rlimit(100)]
    #[verifier::spinoff_prover]
    pub fn poll_one(&mut self, spawner: &mut Spawner<C>, clock: &Clock, timers: &mut TimerWakers) -> (r:
        PollOutcome)
        requires
            old(self).wf(),
            old(spawner).wf(),
            old(timers).wf(),
            forall|i: int, j: int|
                0 <= i < j < old(spawner).spec_tasks().len() ==> (#[trigger] old(spawner).spec_tasks()[i]).spec_id().spec_id() != (#[trigger] old(spawner).spec_tasks()[j]).spec_id().spec_id(),
            forall|i: int|
                0 <= i < old(spawner).spec_tasks().len() ==> !old(self).has_task(
                    (#[trigger] old(spawner).spec_tasks()[i]).spec_id().spec_id(),
                ),
        ensures
            final(self).wf(),
            final(spawner).wf(),
            final(timers).wf(),
            final(spawner).spec_tasks().len() == 0,
            final(spawner).spec_cap() == old(spawner).spec_cap(),
            (r is Idle) <==> (old(self).spec_wakes().spec_ids().len() == 0 && old(spawner).spec_tasks().len() == 0),
            r is Idle ==> final(self).spec_tasks() == old(self).spec_tasks() && final(self).spec_wakes().spec_ids() == old(self).spec_wakes().spec_ids(),
            !(r is Idle) ==> {
                let mid = old(self).spec_tasks() + old(spawner).spec_tasks();
                &&& (r matches PollOutcome::Stale(t) ==> !tasks_have_id(mid, t.spec_id())
                    && final(self).spec_tasks() == mid && (forall|x: u64| #[trigger]
                    final(self).spec_wakes().spec_contains(x) <==> ((old(self).spec_wakes().spec_contains(x) || tasks_have_id(old(spawner).spec_tasks(), x))
                        && x != t.spec_id())))
                &&& (r matches PollOutcome::Completed(t) ==> tasks_have_id(mid, t.spec_id())
                    && !final(self).has_task(t.spec_id()) && (exists|k: int|
                    0 <= k < mid.len() && (#[trigger] mid[k]).spec_id().spec_id() == t.spec_id()
                        && final(self).spec_tasks() == mid.remove(k)))
                &&& (r matches PollOutcome::Suspended(t) ==> tasks_have_id(mid, t.spec_id())
                    && final(self).has_task(t.spec_id()) && (exists|k: int|
                    0 <= k < mid.len() && (#[trigger] mid[k]).spec_id().spec_id() == t.spec_id()
                        && final(self).spec_tasks().len() == mid.len() && final(self).spec_tasks().drop_last() == mid.remove(k) && final(self).spec_tasks().last().spec_id() == mid[k].spec_id()))
                &&& (r is Stale || r is Completed || r is Suspended)
            },
            !(r is Idle) ==> (outcome_id(r) matches Some(t) && (old(self).spec_wakes().spec_contains(t.spec_id()) || tasks_have_id(
                old(spawner).spec_tasks(),
                t.spec_id(),
            )) && (forall|x: u64|
                (#[trigger] old(self).spec_wakes().spec_contains(x) || tasks_have_id(
                    old(spawner).spec_tasks(),
                    x,
                )) ==> t.spec_id() <= x)),
            !(r is Idle) ==> (outcome_id(r) matches Some(t) && (forall|x: u64|
                ((old(self).spec_wakes().spec_contains(x) || tasks_have_id(
                    old(spawner).spec_tasks(),
                    x,
                )) && x != t.spec_id()) ==> #[trigger] final(self).spec_wakes().spec_contains(
                    x,
                ))),
    {
        self.poll_spawner(spawner);
        let ghost t0 = self.spec_tasks();
        let ghost midw = self.spec_wakes();
        let raw = match self.wake_set.pop_first() {
            None => {
                proof {
                    // Nothing woken after admission: nothing was pending
                    // before and nothing was admitted.
                    assert forall|x: u64| !old(self).spec_wakes().spec_contains(x) by {
                        if old(self).spec_wakes().spec_contains(x) {
                            assert(midw.spec_contains(x));
                        }
                    }
                    if old(self).spec_wakes().spec_ids().len() > 0 {
                        let v = old(self).spec_wakes().spec_ids()[0];
                        assert(old(self).spec_wakes().spec_contains(v)) by {
                            assert(old(self).spec_wakes().spec_ids()[0] == v);
                        }
                        assert(false);
                    }
                    if old(spawner).spec_tasks().len() > 0 {
                        assert(tasks_have_id(
                            old(spawner).spec_tasks(),
                            old(spawner).spec_tasks()[0].spec_id().spec_id(),
                        ));
                        assert(midw.spec_contains(
                            old(spawner).spec_tasks()[0].spec_id().spec_id(),
                        ));
                        assert(false);
                    }
                    assert(self.spec_tasks() =~= old(self).spec_tasks());
                }
                return PollOutcome::Idle;
            },
            Some(raw) => raw,
        };
        proof {
            // A woken ID exists, so the step is not idle, and the popped
            // ID is the least of everything pending or freshly admitted.
            assert(midw.spec_contains(raw)) by {
                assert(midw.spec_ids()[0] == raw);
            }
            assert(old(self).spec_wakes().spec_contains(raw) || tasks_have_id(
                old(spawner).spec_tasks(),
                raw,
            ));
            assert forall|x: u64|
                (#[trigger] old(self).spec_wakes().spec_contains(x) || tasks_have_id(
                    old(spawner).spec_tasks(),
                    x,
                )) implies raw <= x by {
                assert(midw.spec_contains(x));
            }
        }
        let id = TaskId::from_u64(raw);
        // Look the ID up in the task table.
        let mut i: usize = 0;
        while i < self.tasks.len() && self.tasks[i].id().as_u64() != raw
            invariant
                self.spec_tasks() == t0,
                0 <= i <= t0.len(),
                forall|j: int| 0 <= j < i ==> (#[trigger] t0[j]).spec_id().spec_id() != raw,
                self.wf(),
                spawner.wf(),
                spawner.spec_tasks().len() == 0,
                spawner.spec_cap() == old(spawner).spec_cap(),
                timers.wf(),
                id.spec_id() == raw,
                t0 == old(self).spec_tasks() + old(spawner).spec_tasks(),
                midw.wf(),
                midw.spec_ids().len() > 0,
                raw == midw.spec_ids()[0],
                self.spec_wakes().spec_ids() == midw.spec_ids().drop_first(),
                forall|x: u64| #[trigger]
                    midw.spec_contains(x) <==> (old(self).spec_wakes().spec_contains(x)
                        || tasks_have_id(old(spawner).spec_tasks(), x)),
                old(self).spec_wakes().spec_contains(raw) || tasks_have_id(
                    old(spawner).spec_tasks(),
                    raw,
                ),
                forall|x: u64|
                    (#[trigger] old(self).spec_wakes().spec_contains(x) || tasks_have_id(
                        old(spawner).spec_tasks(),
                        x,
                    )) ==> raw <= x,
            decreases t0.len() - i,
        {
            i = i + 1;
        }
        proof {
            // Everyone pending or admitted except the popped ID is still
            // in the wake set after the pop.
            assert forall|x: u64|
                ((old(self).spec_wakes().spec_contains(x) || tasks_have_id(
                    old(spawner).spec_tasks(),
                    x,
                )) && x != raw) implies #[trigger] self.spec_wakes().spec_contains(x) by {
                assert(midw.spec_contains(x));
                let j = choose|j: int| 0 <= j < midw.spec_ids().len() && midw.spec_ids()[j] == x;
                assert(j != 0);
                assert(self.spec_wakes().spec_ids()[j - 1] == x);
                assert(self.spec_wakes().spec_ids().contains(x));
            }
        }
        if i >= self.tasks.len() {
            // The task completed some time after this wake was queued:
            // stale wakes are tolerated and ignored.
            proof {
                if tasks_have_id(t0, raw) {
                    let k = choose|k: int|
                        0 <= k < t0.len() && (#[trigger] t0[k]).spec_id().spec_id() == raw;
                    assert(false);
                }
                // Popping the least ID removes exactly that one member.
                assert forall|x: u64| #[trigger]
                    self.spec_wakes().spec_contains(x) <==> (midw.spec_contains(x) && x
                        != raw) by {
                    let tail = self.spec_wakes().spec_ids();
                    if tail.contains(x) {
                        let j = choose|j: int| 0 <= j < tail.len() && tail[j] == x;
                        assert(midw.spec_ids()[j + 1] == x);
                        assert(midw.spec_contains(x));
                        lemma_sorted_below(midw.spec_ids(), 0, j + 1);
                    }
                    if midw.spec_contains(x) && x != raw {
                        let j = choose|j: int|
                            0 <= j < midw.spec_ids().len() && midw.spec_ids()[j] == x;
                        assert(j != 0);
                        assert(tail[j - 1] == x);
                        assert(tail.contains(x));
                    }
                }
            }
            return PollOutcome::Stale(id);
        }
        let mut task = self.tasks.remove(i);
        proof {
            assert(task.spec_id().spec_id() == raw);
            assert(tasks_have_id(t0, raw));
        }
        let ghost wpre = self.spec_wakes();
        let outcome = task.cont.poll(id, clock, timers, &mut self.wake_set);
        let ghost wpost = self.spec_wakes();
        proof {
            // The continuation may add wakes but never withdraws them, so
            // everyone except the popped ID stays pending.
            assert forall|x: u64|
                ((old(self).spec_wakes().spec_contains(x) || tasks_have_id(
                    old(spawner).spec_tasks(),
                    x,
                )) && x != raw) implies #[trigger] wpost.spec_contains(x) by {
                assert(wpre.spec_contains(x));
            }
            // The popped ID is still the least of the pending-or-admitted
            // IDs; restate it beside the exits.
            assert(old(self).spec_wakes().spec_contains(raw) || tasks_have_id(
                old(spawner).spec_tasks(),
                raw,
            ));
            assert forall|x: u64|
                (#[trigger] old(self).spec_wakes().spec_contains(x) || tasks_have_id(
                    old(spawner).spec_tasks(),
                    x,
                )) implies raw <= x by {}
            // Removing the entry removes the only task with this ID.
            assert forall|j: int|
                0 <= j < self.spec_tasks().len() implies (#[trigger] self.spec_tasks()[j]).spec_id().spec_id()
                != raw by {
                if j < i {
                    assert(self.spec_tasks()[j] == t0[j]);
                } else {
                    assert(self.spec_tasks()[j] == t0[j + 1]);
                }
            }
            assert forall|a: int, b: int|
                0 <= a < b < self.spec_tasks().len() implies (#[trigger] self.spec_tasks()[a]).spec_id().spec_id()
                != (#[trigger] self.spec_tasks()[b]).spec_id().spec_id() by {
                let ta: int = if a < i { a } else { a + 1 };
                let tb: int = if b < i { b } else { b + 1 };
                assert(self.spec_tasks()[a] == t0[ta]);
                assert(self.spec_tasks()[b] == t0[tb]);
            }
        }
        match outcome {
            TaskPoll::Ready => {
                proof {
                    assert forall|x: u64|
                        ((old(self).spec_wakes().spec_contains(x) || tasks_have_id(
                            old(spawner).spec_tasks(),
                            x,
                        )) && x != raw) implies #[trigger] self.spec_wakes().spec_contains(x) by {
                        assert(wpost.spec_contains(x));
                        assert(self.spec_wakes() == wpost);
                    }
                    if self.has_task(raw) {
                        let k = choose|k: int|
                            0 <= k < self.spec_tasks().len() && (#[trigger] self.spec_tasks()[k]).spec_id().spec_id()
                                == raw;
                        assert(false);
                    }
                }
                PollOutcome::Completed(id)
            },
            TaskPoll::Pending => {
                let ghost mid = self.spec_tasks();
                self.tasks.push(task);
                proof {
                    assert forall|x: u64|
                        ((old(self).spec_wakes().spec_contains(x) || tasks_have_id(
                            old(spawner).spec_tasks(),
                            x,
                        )) && x != raw) implies #[trigger] self.spec_wakes().spec_contains(x) by {
                        assert(wpost.spec_contains(x));
                        assert(self.spec_wakes() == wpost);
                    }
                    let t = self.spec_tasks();
                    assert(t == mid.push(task));
                    assert forall|a: int, b: int|
                        0 <= a < b < t.len() implies (#[trigger] t[a]).spec_id().spec_id() != (
                        #[trigger] t[b]).spec_id().spec_id() by {
                        if b < t.len() - 1 {
                            assert(t[a] == mid[a] && t[b] == mid[b]);
                        } else {
                            assert(t[b] == task);
                            assert(t[a] == mid[a]);
                        }
                    }
                    assert(t[t.len() - 1] == task);
                    assert(self.has_task(raw));
                    assert(t.drop_last() =~= t0.remove(i as int));
                    assert(t.last().spec_id() == t0[i as int].spec_id());
                }
                PollOutcome::Suspended(id)
            },
        }
    }

    /// The lost-wakeup-free idle check: with interrupts masked, decide
    /// whether the CPU may halt until the next interrupt. The caller must
    /// halt (with interrupts re-enabled atomically) exactly when this
    /// returns true; the hardware halt itself is outside the model.
    pub fn sleep_if_idle(&self, cpu: &mut InterruptFlag) -> (halt: bool)
        ensures
            halt <==> self.spec_wakes().spec_ids().len() == 0,
            final(cpu).enabled,
    {
        cpu.enabled = false;
        let idle = self.wake_set.is_empty();
        cpu.enabled = true;
        idle
    }

    /// Run scheduling steps until the wake set drains or the poll budget
    /// runs out: drain the spawn queue, then poll woken tasks one at a
    /// time. Returns whether the executor went idle (every wake was
    /// served) together with the trace of outcomes, which ties the final
    /// task table to the admitted tasks step by step; the caller then
    /// waits for the next interrupt and calls again.
    #[verifier::rlimit(100)]
    #[verifier::spinoff_prover]
    pub fn run_until_idle(
        &mut self,
        spawner: &mut Spawner<C>,
        clock: &Clock,
        timers: &mut TimerWakers,
        max_polls: usize,
    ) -> (r: (bool, Vec<PollOutcome>))
        requires
            old(self).wf(),
            old(spawner).wf(),
            old(timers).wf(),
            forall|i: int, j: int|
                0 <= i < j < old(spawner).spec_tasks().len() ==> (#[trigger] old(spawner).spec_tasks()[i]).spec_id().spec_id() != (#[trigger] old(spawner).spec_tasks()[j]).spec_id().spec_id(),
            forall|i: int|
                0 <= i < old(spawner).spec_tasks().len() ==> !old(self).has_task(
                    (#[trigger] old(spawner).spec_tasks()[i]).spec_id().spec_id(),
                ),
        ensures
            final(self).wf(),
            final(spawner).wf(),
            final(timers).wf(),
            final(spawner).spec_tasks().len() == 0,
            r.0 <==> final(self).spec_wakes().spec_ids().len() == 0,
            poll_trace(
                old(self).spec_tasks() + old(spawner).spec_tasks(),
                r.1@,
                final(self).spec_tasks(),
            ),
            forall|i: int| 0 <= i < r.1@.len() - 1 ==> !((#[trigger] r.1@[i]) is Idle),
            r.0 || r.1@.len() == max_polls,
    {
        self.poll_spawner(spawner);
        let ghost start = self.spec_tasks();
        let mut trace: Vec<PollOutcome> = Vec::new();
        proof {
            assert(trace@ =~= Seq::<PollOutcome>::empty());
            assert(poll_trace(start, trace@, self.spec_tasks()));
        }
        let mut budget = max_polls;
        while budget > 0
            invariant
                self.wf(),
                timers.wf(),
                spawner.wf(),
                spawner.spec_tasks().len() == 0,
                start == old(self).spec_tasks() + old(spawner).spec_tasks(),
                poll_trace(start, trace@, self.spec_tasks()),
                forall|i: int| 0 <= i < trace@.len() ==> !((#[trigger] trace@[i]) is Idle),
                trace@.len() + budget == max_polls,
            decreases budget,
        {
            let ghost pre = self.spec_tasks();
            let ghost tr0 = trace@;
            let ghost qpre = spawner.spec_tasks();
            let outcome = self.poll_one(spawner, clock, timers);
            let ghost now = self.spec_tasks();
            proof {
                assert(pre + qpre =~= pre);
            }
            match outcome {
                PollOutcome::Idle => {
                    trace.push(outcome);
                    proof {
                        assert(now == pre);
                        assert(poll_outcome_step(pre, outcome, now));
                        lemma_poll_trace_snoc(start, tr0, pre, outcome, now);
                        assert(trace@ =~= tr0.push(outcome));
                    }
                    return (true, trace);
                },
                PollOutcome::Stale(t) => {
                    trace.push(outcome);
                    proof {
                        assert(!tasks_have_id(pre, t.spec_id()));
                        assert(poll_outcome_step(pre, outcome, now));
                        lemma_poll_trace_snoc(start, tr0, pre, outcome, now);
                        assert(trace@ =~= tr0.push(outcome));
                    }
                },
                PollOutcome::Completed(t) => {
                    trace.push(outcome);
                    proof {
                        let mid = pre + qpre;
                        let k = choose|k: int|
                            0 <= k < mid.len() && (#[trigger] mid[k]).spec_id().spec_id()
                                == t.spec_id() && now == mid.remove(k);
                        assert(pre[k].spec_id() == t);
                        assert(now == pre.remove(k));
                        assert(poll_outcome_step(pre, outcome, now));
                        lemma_poll_trace_snoc(start, tr0, pre, outcome, now);
                        assert(trace@ =~= tr0.push(outcome));
                    }
                },
                PollOutcome::Suspended(t) => {
                    trace.push(outcome);
                    proof {
                        let mid = pre + qpre;
                        let k = choose|k: int|
                            0 <= k < mid.len() && (#[trigger] mid[k]).spec_id().spec_id()
                                == t.spec_id() && now.len() == mid.len() && now.drop_last()
                                == mid.remove(k) && now.last().spec_id() == mid[k].spec_id();
                        assert(pre[k].spec_id() == t);
                        assert(now.last().spec_id() == t);
                        assert(poll_outcome_step(pre, outcome, now));
                        lemma_poll_trace_snoc(start, tr0, pre, outcome, now);
                        assert(trace@ =~= tr0.push(outcome));
                    }
                },
            }
            budget = budget - 1;
        }
        let idle = !self.has_woken_tasks();
        (idle, trace)
    }
}

} // verus!