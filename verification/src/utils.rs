//! A lock around a value for code that runs on one processor.

use vstd::prelude::*;

verus! {

/// A value behind a lock flag. Exclusive access comes with `&mut`; the flag
/// records whether a guard is out.
pub struct Mutex<T> {
    lock: bool,
    inner: T,
}

/// Access to the value of a locked `Mutex`. `unlock` ends it.
pub struct MutexGuard<'a, T> {
    /// The mutex that the guard has locked.
    pub parent: &'a mut Mutex<T>,
}

impl<T> Mutex<T> {
    /// Whether a guard is out.
    pub closed spec fn locked(&self) -> bool {
        self.lock
    }

    /// The value behind the lock.
    pub closed spec fn value(&self) -> T {
        self.inner
    }

    /// An unlocked mutex around `value`.
    pub fn new(value: T) -> (mutex: Self)
        ensures
            !mutex.locked(),
            mutex.value() == value,
    {
        Mutex { lock: false, inner: value }
    }

    /// Locks the mutex and returns the guard through which the value is
    /// reached.
    pub fn lock<'a>(&'a mut self) -> (guard: MutexGuard<'a, T>)
        requires
            !old(self).locked(),
        ensures
            guard.value() == old(self).value(),
            guard.locked(),
            *final(self) == *final(guard.parent),
    {
        self.lock = true;
        MutexGuard { parent: self }
    }
}

impl<'a, T> MutexGuard<'a, T> {
    /// The value that the guard gives access to.
    pub closed spec fn value(&self) -> T {
        self.parent.inner
    }

    /// Whether the mutex is locked while the guard is out.
    pub closed spec fn locked(&self) -> bool {
        self.parent.lock
    }

    /// The value behind the lock.
    pub fn deref(&self) -> (value: &T)
        ensures
            *value == self.value(),
    {
        &self.parent.inner
    }

    /// The value behind the lock, to be changed in place.
    pub fn deref_mut(&mut self) -> (value: &mut T)
        ensures
            *value == old(self).value(),
            final(self).value() == *final(value),
            final(self).locked() == old(self).locked(),
            *final(final(self).parent) == *final(old(self).parent),
    {
        &mut self.parent.inner
    }

    /// Stores `value` behind the lock.
    pub fn set(&mut self, value: T)
        ensures
            final(self).value() == value,
            final(self).locked() == old(self).locked(),
            *final(final(self).parent) == *final(old(self).parent),
    {
        self.parent.inner = value;
    }

    /// Unlocks the mutex and ends the guard.
    pub fn unlock(self)
        ensures
            !final(self.parent).locked(),
            final(self.parent).value() == self.value(),
    {
        self.parent.lock = false;
    }
}

} // verus!
