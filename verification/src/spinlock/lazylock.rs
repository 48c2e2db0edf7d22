//! Lazy initialization behind a lock: a spinlock around a
//! once-initialized slot. Take the lock, then force or read the slot
//! through `get_mut`, and release.

use crate::spinlock::lazystatic::LazyStatic;
use crate::spinlock::{InterruptFlag, KeepInterrupts, SpinLock};
use vstd::prelude::*;

verus! {

/// A lock protecting a lazily initialized slot.
pub struct LazyLock<T> {
    inner: SpinLock<LazyStatic<T>, KeepInterrupts>,
}

impl<T> LazyLock<T> {
    pub closed spec fn spec_locked(self) -> bool {
        self.inner.spec_locked()
    }

    pub closed spec fn spec_slot(self) -> LazyStatic<T> {
        self.inner.spec_value()
    }

    /// An unlocked, uninitialized slot.
    pub fn new() -> (l: LazyLock<T>)
        ensures
            !l.spec_locked(),
            l.spec_slot().wf(),
            l.spec_slot().spec_status() is Uninit,
    {
        LazyLock { inner: SpinLock::new(LazyStatic::new()) }
    }

    /// Take the lock. As with every lock of this model, a held lock can
    /// never be released by anyone else, so the caller must not hold it.
    pub fn lock(&mut self, cpu: &mut InterruptFlag)
        requires
            !old(self).spec_locked(),
        ensures
            final(self).spec_locked(),
            final(self).spec_slot() == old(self).spec_slot(),
            final(cpu).enabled == old(cpu).enabled,
    {
        self.inner.lock(cpu);
    }

    /// The slot, for a holder of the lock: force or read it through the
    /// slot's own operations.
    pub fn get_mut(&mut self) -> (v: &mut LazyStatic<T>)
        requires
            old(self).spec_locked(),
        ensures
            *v == old(self).spec_slot(),
            final(self).spec_slot() == *final(v),
            final(self).spec_locked() == old(self).spec_locked(),
    {
        self.inner.get_mut()
    }

    /// Release the lock.
    pub fn unlock(&mut self, cpu: &mut InterruptFlag)
        requires
            old(self).spec_locked(),
        ensures
            !final(self).spec_locked(),
            final(self).spec_slot() == old(self).spec_slot(),
            final(cpu).enabled == old(cpu).enabled,
    {
        self.inner.unlock(cpu);
    }
}

} // verus!
