//! Mutual exclusion usable from interrupt context.
//!
//! The CPU's interrupt-enable flag is modelled as an explicit
//! [`InterruptFlag`] value threaded through the code that saves, clears
//! and restores it, so the locking discipline — including the
//! interrupt-masking variant needed when a lock is shared with interrupt
//! handlers — is ordinary verified code.

use vstd::prelude::*;

pub mod lazylock;
pub mod lazystatic;

verus! {

/// The CPU's interrupt-enable flag.
pub struct InterruptFlag {
    pub enabled: bool,
}

impl InterruptFlag {
    pub fn new(enabled: bool) -> (f: InterruptFlag)
        ensures
            f.enabled == enabled,
    {
        InterruptFlag { enabled }
    }
}

/// How a lock treats the interrupt-enable flag for the duration of a
/// critical section.
pub trait InterruptHandlingStrategy: Sized {
    /// Whether this strategy masks interrupts inside the critical section.
    spec fn disables(&self) -> bool;

    /// Save the interrupt-enable state and apply the strategy's masking.
    fn apply(&self, cpu: &mut InterruptFlag) -> (saved: bool)
        ensures
            saved == old(cpu).enabled,
            final(cpu).enabled == (old(cpu).enabled && !self.disables()),
    ;

    /// Undo `apply`, given the state it saved.
    fn restore_state(&self, cpu: &mut InterruptFlag, saved: bool)
        ensures
            final(cpu).enabled == (old(cpu).enabled || (saved && self.disables())),
    ;
}

/// Leave the interrupt-enable flag alone: for locks never taken from
/// interrupt context.
pub struct KeepInterrupts;

impl InterruptHandlingStrategy for KeepInterrupts {
    open spec fn disables(&self) -> bool {
        false
    }

    fn apply(&self, cpu: &mut InterruptFlag) -> (saved: bool) {
        cpu.enabled
    }

    fn restore_state(&self, cpu: &mut InterruptFlag, saved: bool) {
    }
}

/// Mask interrupts while the lock is held: required for every lock shared
/// between interrupt handlers and task-level code, since an interrupt that
/// fires while its handler's lock is held would spin forever.
pub struct DisableInterrupts;

impl InterruptHandlingStrategy for DisableInterrupts {
    open spec fn disables(&self) -> bool {
        true
    }

    fn apply(&self, cpu: &mut InterruptFlag) -> (saved: bool) {
        let e = cpu.enabled;
        cpu.enabled = false;
        e
    }

    fn restore_state(&self, cpu: &mut InterruptFlag, saved: bool) {
        if saved {
            cpu.enabled = true;
        }
    }
}

/// A spinlock protecting a value of type `T`. While the lock is held it
/// also remembers the interrupt-enable state that its strategy saved, so
/// that release can restore it.
pub struct SpinLock<T, IH: InterruptHandlingStrategy = KeepInterrupts> {
    locked: bool,
    saved: bool,
    ih: IH,
    value: T,
}

impl<T, IH: InterruptHandlingStrategy> SpinLock<T, IH> {
    pub closed spec fn spec_locked(self) -> bool {
        self.locked
    }

    pub closed spec fn spec_value(self) -> T {
        self.value
    }

    pub closed spec fn spec_saved(self) -> bool {
        self.saved
    }

    pub closed spec fn spec_ih(self) -> IH {
        self.ih
    }

    /// Wrap `value` behind a lock with the given strategy.
    pub fn with_ih(ih: IH, value: T) -> (l: SpinLock<T, IH>)
        ensures
            !l.spec_locked(),
            l.spec_value() == value,
            l.spec_ih() == ih,
    {
        SpinLock { locked: false, saved: false, ih, value }
    }

    /// Whether the lock is currently held.
    pub fn locked(&self) -> (r: bool)
        ensures
            r == self.spec_locked(),
    {
        self.locked
    }

    /// Try to take the lock once. On success the strategy's masking is in
    /// force and the prior interrupt state is saved; on failure the
    /// interrupt flag is exactly as before, and neither the lock nor the
    /// protected value changes — a section that already holds the lock can
    /// never be intruded on.
    pub fn try_lock(&mut self, cpu: &mut InterruptFlag) -> (acquired: bool)
        ensures
            acquired == !old(self).spec_locked(),
            final(self).spec_value() == old(self).spec_value(),
            final(self).spec_ih() == old(self).spec_ih(),
            old(self).spec_locked() ==> *final(self) == *old(self) && *final(cpu) == *old(cpu),
            !old(self).spec_locked() ==> {
                &&& final(self).spec_locked()
                &&& final(self).spec_saved() == old(cpu).enabled
                &&& final(cpu).enabled == (old(cpu).enabled && !old(self).spec_ih().disables())
            },
    {
        let saved = self.ih.apply(cpu);
        if self.locked {
            self.ih.restore_state(cpu, saved);
            return false;
        }
        self.locked = true;
        self.saved = saved;
        true
    }

    /// Take the lock. In this sequential model a lock that is already held
    /// can never be released by anyone else, so spinning on it would never
    /// terminate: the caller must not hold it.
    pub fn lock(&mut self, cpu: &mut InterruptFlag)
        requires
            !old(self).spec_locked(),
        ensures
            final(self).spec_locked(),
            final(self).spec_value() == old(self).spec_value(),
            final(self).spec_ih() == old(self).spec_ih(),
            final(self).spec_saved() == old(cpu).enabled,
            final(cpu).enabled == (old(cpu).enabled && !old(self).spec_ih().disables()),
    {
        let _ = self.try_lock(cpu);
    }

    /// Exclusive access to the protected value; only a holder of the lock
    /// has it.
    pub fn get_mut(&mut self) -> (v: &mut T)
        requires
            old(self).spec_locked(),
        ensures
            *v == old(self).spec_value(),
            final(self).spec_value() == *final(v),
            final(self).spec_locked() == old(self).spec_locked(),
            final(self).spec_saved() == old(self).spec_saved(),
            final(self).spec_ih() == old(self).spec_ih(),
    {
        &mut self.value
    }

    /// Release the lock and restore the interrupt-enable state that was
    /// saved when it was taken.
    pub fn unlock(&mut self, cpu: &mut InterruptFlag)
        requires
            old(self).spec_locked(),
        ensures
            !final(self).spec_locked(),
            final(self).spec_value() == old(self).spec_value(),
            final(self).spec_ih() == old(self).spec_ih(),
            final(cpu).enabled == (old(cpu).enabled || (old(self).spec_saved()
                && old(self).spec_ih().disables())),
    {
        self.locked = false;
        self.ih.restore_state(cpu, self.saved);
    }
}

impl<T> SpinLock<T, KeepInterrupts> {
    /// A lock that leaves interrupts alone.
    pub fn new(value: T) -> (l: SpinLock<T, KeepInterrupts>)
        ensures
            !l.spec_locked(),
            l.spec_value() == value,
    {
        SpinLock::with_ih(KeepInterrupts, value)
    }
}

impl<T> SpinLock<T, DisableInterrupts> {
    /// A lock that masks interrupts while held.
    pub fn disable_interrupts(value: T) -> (l: SpinLock<T, DisableInterrupts>)
        ensures
            !l.spec_locked(),
            l.spec_value() == value,
    {
        SpinLock::with_ih(DisableInterrupts, value)
    }
}

} // verus!
