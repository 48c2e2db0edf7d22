//! Exactly-once deferred initialization.
//!
//! Under concurrency this is a tri-state flag driven by compare-and-swap:
//! whoever wins the uninitialized-to-in-progress transition runs the
//! initializer and then publishes the value. In this sequential model the
//! in-progress state is never observable between calls, but the contract
//! it protects — only one initializer ever takes effect, and a reader that
//! sees the initialized state gets the fully built value — is stated and
//! proved on every operation.

use vstd::prelude::*;

verus! {

/// The tri-state initialization flag.
#[derive(Debug, Clone, Copy, PartialEq, Eq, Structural)]
pub enum InitStatus {
    Uninit,
    InProgress,
    Init,
}

/// A slot for a value that is initialized at most once.
pub struct LazyStatic<T> {
    state: InitStatus,
    slot: Option<T>,
}

impl<T> LazyStatic<T> {
    pub closed spec fn spec_status(self) -> InitStatus {
        self.state
    }

    pub closed spec fn spec_slot(self) -> Option<T> {
        self.slot
    }

    /// The slot holds a value exactly when the flag says so, and the
    /// transient in-progress state never escapes an operation.
    pub open spec fn wf(self) -> bool {
        &&& (self.spec_status() is Init <==> self.spec_slot() is Some)
        &&& !(self.spec_status() is InProgress)
    }

    /// An uninitialized slot.
    pub fn new() -> (l: LazyStatic<T>)
        ensures
            l.wf(),
            l.spec_status() is Uninit,
    {
        LazyStatic { state: InitStatus::Uninit, slot: None }
    }

    /// Read the initialization flag.
    pub fn status(&self) -> (st: InitStatus)
        ensures
            st == self.spec_status(),
    {
        self.state
    }

    /// Publish `val` if no value was published yet; otherwise hand it back
    /// untouched. Only the first insertion ever takes effect.
    pub fn insert_if_uninit(&mut self, val: T) -> (r: Result<(), T>)
        requires
            old(self).wf(),
        ensures
            final(self).wf(),
            old(self).spec_status() is Uninit ==> r is Ok && final(self).spec_status() is Init
                && final(self).spec_slot() == Some(val),
            !(old(self).spec_status() is Uninit) ==> r == Result::<(), T>::Err(val) && *final(self)
                == *old(self),
    {
        match self.state {
            InitStatus::Uninit => {
                self.state = InitStatus::InProgress;
                self.slot = Some(val);
                self.state = InitStatus::Init;
                Ok(())
            },
            _ => Err(val),
        }
    }

    /// Force the slot to be initialized: publish `val` if the slot was
    /// still empty, else drop it and keep the value published first. The
    /// caller supplies the value its initializer computed; it only takes
    /// effect on the one call that wins initialization.
    pub fn force(&mut self, val: T)
        requires
            old(self).wf(),
        ensures
            final(self).wf(),
            final(self).spec_status() is Init,
            old(self).spec_status() is Uninit ==> final(self).spec_slot() == Some(val),
            old(self).spec_status() is Init ==> final(self).spec_slot() == old(self).spec_slot(),
    {
        match self.state {
            InitStatus::Uninit => {
                self.state = InitStatus::InProgress;
                self.slot = Some(val);
                self.state = InitStatus::Init;
            },
            _ => {},
        }
    }

    /// The published value, if initialization has completed.
    pub fn get_if_init(&self) -> (r: Option<&T>)
        requires
            self.wf(),
        ensures
            r is Some <==> self.spec_status() is Init,
            r matches Some(v) ==> self.spec_slot() == Some(*v),
    {
        match self.state {
            InitStatus::Uninit => None,
            InitStatus::InProgress => None,
            InitStatus::Init => {
                match &self.slot {
                    Some(v) => Some(v),
                    None => None,
                }
            },
        }
    }
}

} // verus!
