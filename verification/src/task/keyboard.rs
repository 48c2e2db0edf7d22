//! The interrupt-fed scancode queue: a bounded lock-free ring buffer
//! filled by the keyboard interrupt handler and drained by a cooperative
//! consumer, with a single-slot wake handle. On overflow the newest byte
//! is dropped (and a diagnostic is the caller's to emit); losing a
//! keystroke is recoverable, blocking an interrupt handler is not.

use crate::task::executor::WakeSet;
use crate::task::TaskId;
use vstd::prelude::*;

verus! {

/// Capacity of the scancode queue.
pub const SCANCODE_QUEUE_CAP: usize = 64;

#[verifier::external_type_specification]
#[verifier::external_body]
#[verifier::reject_recursive_types(T)]
pub struct ExArrayQueue<T>(crossbeam_queue::ArrayQueue<T>);

/// The bytes currently queued, oldest first.
pub uninterp spec fn queue_bytes(q: crossbeam_queue::ArrayQueue<u8>) -> Seq<u8>;

/// The fixed capacity the queue was created with.
pub uninterp spec fn queue_capacity(q: crossbeam_queue::ArrayQueue<u8>) -> nat;

/// Relies on crossbeam's `ArrayQueue::new`: the new queue is empty and
/// has the requested capacity. It panics only on capacity zero, or on a
/// capacity whose successor's power-of-two rounding overflows — far
/// beyond the bound required here.
#[verifier::external_body]
fn new_byte_queue(cap: usize) -> (q: crossbeam_queue::ArrayQueue<u8>)
    requires
        1 <= cap <= 0x1000_0000,
    ensures
        queue_bytes(q) == Seq::<u8>::empty(),
        queue_capacity(q) == cap,
{
    crossbeam_queue::ArrayQueue::new(cap)
}

/// Relies on crossbeam's `ArrayQueue::push_mut`: appends the value when
/// the queue is below capacity, else hands it back as `Err`.
#[verifier::external_body]
fn byte_queue_push(q: &mut crossbeam_queue::ArrayQueue<u8>, value: u8) -> (r: Result<(), u8>)
    ensures
        queue_bytes(*old(q)).len() < queue_capacity(*old(q)) ==> r is Ok && queue_bytes(*final(q))
            == queue_bytes(*old(q)).push(value) && queue_capacity(*final(q)) == queue_capacity(
            *old(q),
        ),
        queue_bytes(*old(q)).len() >= queue_capacity(*old(q)) ==> (r matches Err(v) && v == value)
            && queue_bytes(*final(q)) == queue_bytes(*old(q)) && queue_capacity(*final(q))
            == queue_capacity(*old(q)),
{
    q.push_mut(value)
}

/// Relies on crossbeam's `ArrayQueue::pop_mut`: removes and returns the
/// oldest element, or `None` when the queue is empty.
#[verifier::external_body]
fn byte_queue_pop(q: &mut crossbeam_queue::ArrayQueue<u8>) -> (r: Option<u8>)
    ensures
        queue_bytes(*old(q)).len() == 0 ==> r is None && queue_bytes(*final(q)) == queue_bytes(
            *old(q),
        ) && queue_capacity(*final(q)) == queue_capacity(*old(q)),
        queue_bytes(*old(q)).len() > 0 ==> r == Some(queue_bytes(*old(q))[0]) && queue_bytes(
            *final(q),
        ) == queue_bytes(*old(q)).drop_first() && queue_capacity(*final(q)) == queue_capacity(
            *old(q),
        ),
{
    q.pop_mut()
}

/// The single-slot wake handle of the queue's consumer. Registering
/// overwrites any prior registration — only the most recent consumer poll
/// is honoured — and waking takes the handle and delivers it once.
pub struct WakerSlot {
    slot: Option<TaskId>,
}

impl WakerSlot {
    pub closed spec fn spec_slot(self) -> Option<TaskId> {
        self.slot
    }

    /// An empty slot.
    pub fn new() -> (w: WakerSlot)
        ensures
            w.spec_slot() is None,
    {
        WakerSlot { slot: None }
    }

    /// Register a consumer's wake handle, replacing any previous one.
    pub fn register(&mut self, id: TaskId)
        ensures
            final(self).spec_slot() == Some(id),
    {
        self.slot = Some(id);
    }

    /// Remove the registered handle, if any.
    pub fn take(&mut self) -> (r: Option<TaskId>)
        ensures
            final(self).spec_slot() is None,
            r == old(self).spec_slot(),
    {
        let r = self.slot;
        self.slot = None;
        r
    }

    /// Take the registered handle and wake it; a no-op if none is
    /// registered.
    pub fn wake(&mut self, wakes: &mut WakeSet)
        requires
            old(wakes).wf(),
        ensures
            final(wakes).wf(),
            final(self).spec_slot() is None,
            forall|x: u64| #[trigger]
                final(wakes).spec_contains(x) <==> (old(wakes).spec_contains(x) || (old(self).spec_slot() matches Some(w) && w.spec_id() == x)),
    {
        match self.take() {
            Some(id) => {
                wakes.insert(id.as_u64());
            },
            None => {},
        }
    }
}

/// The stream of raw scancodes: a bounded queue bridging the keyboard
/// interrupt (producer) to a cooperative consumer task.
pub struct ScancodeStream {
    queue: crossbeam_queue::ArrayQueue<u8>,
    waker: WakerSlot,
}

impl ScancodeStream {
    /// The queued bytes, oldest first.
    pub closed spec fn spec_bytes(self) -> Seq<u8> {
        queue_bytes(self.queue)
    }

    /// The registered consumer wake handle, if any.
    pub closed spec fn spec_waker(self) -> Option<TaskId> {
        self.waker.spec_slot()
    }

    pub closed spec fn spec_cap(self) -> nat {
        queue_capacity(self.queue)
    }

    pub open spec fn wf(self) -> bool {
        self.spec_cap() == SCANCODE_QUEUE_CAP
    }

    /// An empty stream backed by a queue of `SCANCODE_QUEUE_CAP` bytes.
    pub fn new() -> (s: ScancodeStream)
        ensures
            s.wf(),
            s.spec_bytes().len() == 0,
            s.spec_waker() is None,
    {
        ScancodeStream { queue: new_byte_queue(SCANCODE_QUEUE_CAP), waker: WakerSlot::new() }
    }

    /// Producer side, run by the keyboard interrupt handler: queue the
    /// byte and wake the registered consumer, or — when the queue is full
    /// — drop this newest byte and wake nobody. Returns whether the byte
    /// was accepted so the caller can emit a diagnostic on a drop; the
    /// producer itself never blocks.
    pub fn add_scancode(&mut self, scancode: u8, wakes: &mut WakeSet) -> (accepted: bool)
        requires
            old(self).wf(),
            old(wakes).wf(),
        ensures
            final(self).wf(),
            final(wakes).wf(),
            accepted <==> old(self).spec_bytes().len() < SCANCODE_QUEUE_CAP,
            accepted ==> final(self).spec_bytes() == old(self).spec_bytes().push(scancode)
                && final(self).spec_waker() is None && (forall|x: u64| #[trigger]
                final(wakes).spec_contains(x) <==> (old(wakes).spec_contains(x) || (old(self).spec_waker() matches Some(w) && w.spec_id() == x))),
            !accepted ==> final(self).spec_bytes() == old(self).spec_bytes() && final(self).spec_waker() == old(self).spec_waker() && *final(wakes) == *old(wakes),
    {
        match byte_queue_push(&mut self.queue, scancode) {
            Ok(_) => {
                self.waker.wake(wakes);
                true
            },
            Err(_) => false,
        }
    }

    /// Consumer side: return the oldest byte if one is queued. Otherwise
    /// register the consumer's waker — overwriting any prior registration
    /// — and check once more before committing to suspend, closing the
    /// race where a byte arrives between the first check and the
    /// registration.
    pub fn poll_next(&mut self, waker: TaskId) -> (r: Option<u8>)
        requires
            old(self).wf(),
        ensures
            final(self).wf(),
            old(self).spec_bytes().len() > 0 ==> r == Some(old(self).spec_bytes()[0]) && final(self).spec_bytes() == old(self).spec_bytes().drop_first() && final(self).spec_waker()
                == old(self).spec_waker(),
            old(self).spec_bytes().len() == 0 ==> r is None && final(self).spec_bytes() == old(self).spec_bytes() && final(self).spec_waker() == Some(waker),
    {
        if let Some(b) = byte_queue_pop(&mut self.queue) {
            return Some(b);
        }
        self.waker.register(waker);
        match byte_queue_pop(&mut self.queue) {
            Some(b) => {
                let _ = self.waker.take();
                Some(b)
            },
            None => None,
        }
    }
}

} // verus!
