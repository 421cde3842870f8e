//! Locks between tasks of one processor.
use vstd::prelude::*;

verus! {

/// A lock tasks take in turn.
pub trait Mutex {
    /// One attempt to take the lock: whether it was taken. A task that did not
    /// get it lets the others run, then tries again.
    fn lock(&mut self) -> (taken: bool);

    /// Releases the lock.
    fn unlock(&mut self);
}

/// A lock whose waiters yield the processor and try again.
pub struct MutexSpin {
    locked: bool,
}

impl MutexSpin {
    /// Whether some task holds the lock.
    pub closed spec fn is_locked(&self) -> bool {
        self.locked
    }

    /// A lock nobody holds.
    pub fn new() -> (r: Self)
        ensures
            !r.is_locked(),
    {
        Self { locked: false }
    }
}

impl Mutex for MutexSpin {
    /// Takes the lock if nobody holds it.
    fn lock(&mut self) -> (taken: bool)
        ensures
            taken == !old(self).is_locked(),
            final(self).is_locked(),
    {
        if self.locked {
            false
        } else {
            self.locked = true;
            true
        }
    }

    /// Releases the lock.
    fn unlock(&mut self)
        ensures
            !final(self).is_locked(),
    {
        self.locked = false;
    }
}

} // verus!
