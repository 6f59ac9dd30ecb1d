use std::sync::atomic::AtomicBool;
use std::sync::Arc;
use vstd::prelude::*;

verus! {

/// A lock that is taken or not, and never waited for. Clones share the lock.
///
/// The flag is shared with every clone, so no contract here can say what a
/// call finds: another holder may have acted in between. What is made of the
/// flag that was found is said by `got`.
#[derive(Clone)]
pub struct TryLock {
    locked: Arc<AtomicBool>,
}

/// Holds a lock until it goes out of scope.
pub struct LockGuard<'a> {
    lock: &'a TryLock,
}

impl<'a> LockGuard<'a> {
    /// The lock that the guard releases when it goes out of scope.
    pub closed spec fn held(&self) -> TryLock {
        *self.lock
    }

    /// The guard of a lock that was taken.
    pub fn new(lock: &'a TryLock) -> (guard: Self)
        ensures
            guard.held() == *lock,
    {
        LockGuard { lock }
    }
}

impl Drop for LockGuard<'_> {
    fn drop(&mut self)
        opens_invariants none
        no_unwind
    {
        self.lock.unlock();
    }
}

/// `AtomicBool::store` of `false` with release ordering. The store does not
/// panic: std documents a panic for the orderings `Acquire` and `AcqRel`
/// only.
#[verifier::external_body]
fn store_released(flag: &AtomicBool)
    opens_invariants none
    no_unwind
{
    flag.store(false, std::sync::atomic::Ordering::Release);
}

impl Default for TryLock {
    fn default() -> (lock: Self) {
        TryLock::new()
    }
}

impl TryLock {
    /// A lock that nobody holds.
    pub fn new() -> (lock: Self) {
        TryLock { locked: Arc::new(AtomicBool::new(false)) }
    }

    /// Whether the lock was got by setting the flag: it was, exactly when
    /// the flag was not set before.
    pub fn got(was_set: bool) -> (taken: bool)
        ensures
            taken == !was_set,
    {
        !was_set
    }

    /// Tries to take the lock. It gives a guard that releases the lock when
    /// it goes out of scope, or nothing where the lock is held. A guard that
    /// comes back is the guard of this lock.
    pub fn try_lock_guard(&self) -> (guard: Option<LockGuard<'_>>)
        ensures
            guard matches Some(g) ==> g.held() == *self,
    {
        let was_set = self.locked.swap(true, std::sync::atomic::Ordering::Acquire);
        if TryLock::got(was_set) {
            Some(LockGuard::new(self))
        } else {
            None
        }
    }

    /// Tries to take the lock and says whether it got it.
    pub fn try_lock(&self) -> (taken: bool) {
        let was_set = self.locked.swap(true, std::sync::atomic::Ordering::Acquire);
        TryLock::got(was_set)
    }

    /// Releases the lock.
    pub fn unlock(&self)
        opens_invariants none
        no_unwind
    {
        store_released(&self.locked);
    }
}

} // verus!
