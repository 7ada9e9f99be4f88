//! A blocking stack shared between threads: a vector behind a mutex, and a
//! condition variable that a push signals.

use std::sync::{Condvar, Mutex, MutexGuard, PoisonError};
use vstd::prelude::*;

verus! {

/// `std::sync::Mutex`.
#[verifier::external_type_specification]
#[verifier::external_body]
#[verifier::reject_recursive_types(T)]
pub struct ExMutex<T: ?Sized>(Mutex<T>);

/// `std::sync::Condvar`.
#[verifier::external_type_specification]
#[verifier::external_body]
pub struct ExCondvar(Condvar);

/// `std::sync::MutexGuard`.
#[verifier::external_type_specification]
#[verifier::external_body]
#[verifier::reject_recursive_types(T)]
pub struct ExMutexGuard<'a, T: ?Sized + 'a>(MutexGuard<'a, T>);

/// `std::sync::PoisonError`.
#[verifier::external_type_specification]
#[verifier::external_body]
#[verifier::reject_recursive_types(T)]
pub struct ExPoisonError<T>(PoisonError<T>);

#[verifier::reject_recursive_types(T)]
pub struct ConcurrentStack<T> {
    vector: Mutex<Vec<T>>,
    cond: Condvar,
}

/// `Mutex::new`: a mutex that guards `items`.
#[verifier::external_body]
fn mutex_new<T>(items: Vec<T>) -> Mutex<Vec<T>> {
    Mutex::new(items)
}

/// `Condvar::new`.
#[verifier::external_body]
fn condvar_new() -> Condvar {
    Condvar::new()
}

/// `Mutex::lock`: blocks until the mutex is free. What the vector holds
/// then is whatever the other threads left in it. A thread that locks a
/// mutex which it holds already may block for ever or panic; no function
/// here locks while it holds a guard.
#[verifier::external_body]
fn mutex_lock<'a, T>(mutex: &'a Mutex<Vec<T>>) -> Result<
    MutexGuard<'a, Vec<T>>,
    PoisonError<MutexGuard<'a, Vec<T>>>,
> {
    mutex.lock()
}

/// `PoisonError::into_inner`: the guard of a mutex whose holder panicked.
#[verifier::external_body]
fn poison_into_inner<'a, T>(error: PoisonError<MutexGuard<'a, Vec<T>>>) -> MutexGuard<
    'a,
    Vec<T>,
> {
    error.into_inner()
}

/// `DerefMut::deref_mut` of a guard: the vector that it guards.
#[verifier::external_body]
fn guard_items<'a, 'b, T>(guard: &'a mut MutexGuard<'b, Vec<T>>) -> &'a mut Vec<T> {
    std::ops::DerefMut::deref_mut(guard)
}

/// `Condvar::wait`: gives the mutex up, blocks until the condition
/// variable is signalled or the thread wakes for no reason, and takes the
/// mutex again.
#[verifier::external_body]
fn condvar_wait<'a, T>(cond: &Condvar, guard: MutexGuard<'a, Vec<T>>) -> Result<
    MutexGuard<'a, Vec<T>>,
    PoisonError<MutexGuard<'a, Vec<T>>>,
> {
    cond.wait(guard)
}

/// `Condvar::notify_one`: wakes one thread that waits.
#[verifier::external_body]
fn condvar_notify_one(cond: &Condvar) {
    cond.notify_one()
}

/// Puts `object` on top of the stack `items`.
pub fn push_top<T>(items: &mut Vec<T>, object: T)
    ensures
        final(items)@ == old(items)@.push(object),
{
    items.push(object);
}

/// Takes the top of the stack `items`: the object that was pushed last.
pub fn pop_top<T>(items: &mut Vec<T>) -> (object: Option<T>)
    ensures
        match object {
            Some(top) => old(items)@.len() > 0 && top == old(items)@.last() && final(items)@
                == old(items)@.drop_last(),
            None => old(items)@.len() == 0 && final(items)@ == old(items)@,
        },
{
    items.pop()
}

/// Last in, first out: of two objects pushed one after the other, the
/// second is on top, and the first is on top once the second was taken.
pub proof fn lemma_last_in_first_out<T>(items: Seq<T>, first: T, second: T)
    ensures
        items.push(first).push(second).last() == second,
        items.push(first).push(second).drop_last() == items.push(first),
        items.push(first).push(second).drop_last().last() == first,
        items.push(first).push(second).drop_last().drop_last() == items,
{
    assert(items.push(first).push(second).drop_last() =~= items.push(first));
    assert(items.push(first).drop_last() =~= items);
}

impl<T> ConcurrentStack<T> {
    /// An empty stack.
    #[inline]
    pub fn new() -> ConcurrentStack<T> {
        ConcurrentStack { vector: mutex_new(Vec::new()), cond: condvar_new() }
    }

    /// Puts `object` on top of the stack and wakes one thread that waits in `pop`.
    #[inline]
    pub fn push(&self, object: T) {
        let mut guard = match mutex_lock(&self.vector) {
            Ok(guard) => guard,
            Err(poisoned) => poison_into_inner(poisoned),
        };
        push_top(guard_items(&mut guard), object);
        condvar_notify_one(&self.cond);
    }

    /// Takes the top of the stack. On an empty stack this waits once for a
    /// signal and then looks again; `None` if the stack was empty then too.
    #[inline]
    pub fn pop(&self) -> Option<T> {
        let mut guard = match mutex_lock(&self.vector) {
            Ok(guard) => guard,
            Err(poisoned) => poison_into_inner(poisoned),
        };
        let top = pop_top(guard_items(&mut guard));
        if top.is_some() {
            return top;
        }
        let mut guard = match condvar_wait(&self.cond, guard) {
            Ok(guard) => guard,
            Err(poisoned) => poison_into_inner(poisoned),
        };
        pop_top(guard_items(&mut guard))
    }
}

} // verus!
