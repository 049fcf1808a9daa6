use std::sync::{RwLock, RwLockReadGuard, RwLockWriteGuard, TryLockError};
use vstd::prelude::*;

verus! {

#[verifier::external_type_specification]
#[verifier::external_body]
#[verifier::reject_recursive_types(T)]
pub struct ExRwLock<T: ?Sized>(RwLock<T>);

#[verifier::external_type_specification]
#[verifier::external_body]
#[verifier::reject_recursive_types(T)]
pub struct ExRwLockReadGuard<'a, T: ?Sized>(RwLockReadGuard<'a, T>);

#[verifier::external_type_specification]
#[verifier::external_body]
#[verifier::reject_recursive_types(T)]
pub struct ExRwLockWriteGuard<'a, T: ?Sized + 'a>(RwLockWriteGuard<'a, T>);

/// Why a guard could not be taken at once.
#[derive(Debug, PartialEq, Eq, Structural)]
pub enum LockUnavailable {
    /// Another guard holds the lock in a way that excludes this one.
    Busy,
    /// A thread panicked while holding the lock for writing.
    Poisoned,
}

/// `RwLock::try_read`: shared access if it can be had at once, without
/// waiting; `Busy` when a writer holds the lock, `Poisoned` when the lock is
/// poisoned. The call neither blocks nor panics. Which of the three comes
/// back, and what the guard holds, depend on other threads: nothing is stated
/// of either.
#[verifier::external_body]
fn try_lock_for_read<T>(lock: &RwLock<T>) -> Result<RwLockReadGuard<'_, T>, LockUnavailable> {
    match lock.try_read() {
        Ok(guard) => Ok(guard),
        Err(TryLockError::WouldBlock) => Err(LockUnavailable::Busy),
        Err(TryLockError::Poisoned(_)) => Err(LockUnavailable::Poisoned),
    }
}

/// `RwLock::try_write`: exclusive access if it can be had at once, without
/// waiting; `Busy` when any guard holds the lock, `Poisoned` when the lock is
/// poisoned. The call neither blocks nor panics. Which of the three comes
/// back, and what the guard holds, depend on other threads: nothing is stated
/// of either.
#[verifier::external_body]
fn try_lock_for_write<T>(lock: &RwLock<T>) -> Result<RwLockWriteGuard<'_, T>, LockUnavailable> {
    match lock.try_write() {
        Ok(guard) => Ok(guard),
        Err(TryLockError::WouldBlock) => Err(LockUnavailable::Busy),
        Err(TryLockError::Poisoned(_)) => Err(LockUnavailable::Poisoned),
    }
}

/// A read-write lock whose guards are taken without waiting.
#[derive(Debug)]
#[verifier::reject_recursive_types(T)]
pub struct UncheckedRwLock<T>(RwLock<T>);

impl<T> UncheckedRwLock<T> {
    /// The lock inside.
    pub closed spec fn spec_lock(&self) -> RwLock<T> {
        self.0
    }

    /// The lock inside, given back.
    pub fn into_read_write_lock(self) -> (r: RwLock<T>)
        ensures
            r == self.spec_lock(),
    {
        self.0
    }

    /// Wraps `read_write_lock`.
    pub fn new(read_write_lock: RwLock<T>) -> (r: Self)
        ensures
            r.spec_lock() == read_write_lock,
    {
        UncheckedRwLock(read_write_lock)
    }

    /// The lock inside, borrowed.
    pub fn as_read_write_lock(&self) -> (r: &RwLock<T>)
        ensures
            *r == self.spec_lock(),
    {
        &self.0
    }

    /// Shared access to the guarded value, if it can be had at once:
    /// `Busy` while a writer holds the lock, `Poisoned` once the lock is
    /// poisoned. A caller that must have the guard tries again on `Busy`. What
    /// comes back depends on other threads: nothing is stated of it.
    pub fn read(&self) -> Result<RwLockReadGuard<'_, T>, LockUnavailable> {
        try_lock_for_read(&self.0)
    }

    /// Exclusive access to the guarded value, if it can be had at once:
    /// `Busy` while any guard holds the lock, `Poisoned` once the lock is
    /// poisoned. A caller that must have the guard tries again on `Busy`. What
    /// comes back depends on other threads: nothing is stated of it.
    pub fn write(&self) -> Result<RwLockWriteGuard<'_, T>, LockUnavailable> {
        try_lock_for_write(&self.0)
    }
}

} // verus!
