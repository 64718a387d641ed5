//! A mutual-exclusion wrapper for one heap or another value.
//!
//! On the bare metal the lock is a spinning test-and-set flag; here the
//! flag is modelled directly, and the contracts demand what the spin
//! loop enforces at run time: the lock is taken only when it is free,
//! and it is not reentrant — a second acquisition by the holder would
//! never return.

use vstd::prelude::*;

verus! {

/// A non-reentrant mutual-exclusion primitive holding one value.
pub struct MuMutex<T> {
    pub(crate) locked: bool,
    pub(crate) value: T,
}

/// The witness that the lock is held.  Acquiring the lock yields one;
/// releasing the lock consumes it.
#[must_use]
pub struct MuMutexGuard {
    pub(crate) held: bool,
}

impl MuMutexGuard {
    /// Whether this guard witnesses a held lock.
    pub closed spec fn spec_held(self) -> bool {
        self.held
    }
}

impl<T> MuMutex<T> {
    /// Whether the lock is currently held.
    pub closed spec fn spec_locked(self) -> bool {
        self.locked
    }

    /// The value the lock protects.
    pub closed spec fn spec_value(self) -> T {
        self.value
    }

    /// Ties the spec view of the mutex to its fields, for the modules
    /// inside this crate that reach through the lock.
    pub(crate) proof fn lemma_view(self)
        ensures
            self.spec_value() == self.value,
            self.spec_locked() == self.locked,
    {
    }

    /// Wraps a value in an unlocked mutex.
    pub fn new(value: T) -> (r: Self)
        ensures
            !r.spec_locked(),
            r.spec_value() == value,
    {
        Self { locked: false, value }
    }

    /// Acquires the lock.  The lock is not reentrant: acquiring it
    /// while it is already held never returns, so that case is ruled
    /// out here.
    pub fn lock(&mut self) -> (g: MuMutexGuard)
        requires
            !old(self).spec_locked(),
        ensures
            final(self).spec_locked(),
            final(self).spec_value() == old(self).spec_value(),
            g.spec_held(),
    {
        self.locked = true;
        MuMutexGuard { held: true }
    }

    /// Releases the lock, consuming the guard.
    pub fn unlock(&mut self, g: MuMutexGuard)
        requires
            old(self).spec_locked(),
            g.spec_held(),
        ensures
            !final(self).spec_locked(),
            final(self).spec_value() == old(self).spec_value(),
    {
        let _ = g;
        self.locked = false;
    }
}

} // verus!
