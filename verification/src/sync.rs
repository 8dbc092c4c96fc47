//! The spin lock that guards shared allocator state.
//!
//! What lies behind a lock can change between two calls from other threads,
//! so nothing here promises anything of the value a guard gives access to:
//! the verified code that uses these items states only what holds whatever
//! value it finds there, and relies on type invariants of the guarded types.
use vstd::prelude::*;

verus! {

/// `spin::Mutex`, a lock that spins until it is free.
#[verifier::external_type_specification]
#[verifier::external_body]
#[verifier::reject_recursive_types(T)]
#[verifier::reject_recursive_types(R)]
pub struct ExMutex<T: ?Sized, R>(spin::mutex::Mutex<T, R>);

/// `spin::relax::Spin`, the default way a `spin::Mutex` waits: a busy loop.
#[verifier::external_type_specification]
#[verifier::external_body]
pub struct ExSpin(spin::relax::Spin);

/// `spin::MutexGuard`, the proof that a `spin::Mutex` is held.
#[verifier::external_type_specification]
#[verifier::external_body]
#[verifier::reject_recursive_types(T)]
pub struct ExMutexGuard<'a, T: 'a + ?Sized>(spin::mutex::MutexGuard<'a, T>);

/// Calls `spin::Mutex::new`, which wraps `value` in a fresh, unlocked lock.
/// Nothing is stated of the result: what it holds is read back only through
/// `guarded`, of which nothing is promised either.
#[verifier::external_body]
pub(crate) fn new_mutex<T>(value: T) -> (m: spin::Mutex<T>) {
    spin::Mutex::new(value)
}

/// Calls `spin::Mutex::lock`, which spins until the lock is free and then
/// holds it until the guard is dropped. Nothing is stated of the guard; the
/// call does not return while the same thread already holds the lock.
#[verifier::external_body]
pub(crate) fn lock<T>(m: &spin::Mutex<T>) -> (g: spin::MutexGuard<'_, T>) {
    m.lock()
}

/// Calls `DerefMut::deref_mut` of `spin::MutexGuard`, which gives exclusive
/// access to the value behind the held lock. Nothing is stated of that value.
#[verifier::external_body]
pub(crate) fn guarded<'a, 'b, T>(g: &'b mut spin::MutexGuard<'a, T>) -> (r: &'b mut T) {
    &mut **g
}

} // verus!
