//! The primitives that the shared memory is made of.
//!
//! Nothing is known of a value behind a shared reference, but which call was made with
//! which arguments is: a function that is called as a value leaves `call_ensures` of
//! its arguments and its result. The predicates here say that such a call was made on
//! the primitive at hand, so only the call itself shows them.
//!
//! A cell and a counter do not know what they are made of, and get the functions that they
//! call on it handed over with each access. Which ones these are for a mutex and an atomic
//! is said by their `Lock`, `Guard` and `Word`.
use std::ops::DerefMut;
use std::sync::atomic::{AtomicUsize, Ordering};
use std::sync::{Mutex, MutexGuard, TryLockError};

use vstd::prelude::*;

use crate::memory::{Guard, Lock, Place, Word};

verus! {

/// `std::sync::Mutex`, carried as an opaque value: what it guards can change through
/// a shared reference, so nothing is claimed of it.
#[verifier::external_type_specification]
#[verifier::external_body]
#[verifier::reject_recursive_types(T)]
pub struct ExMutex<T: ?Sized>(std::sync::Mutex<T>);

/// `std::sync::MutexGuard`, carried as an opaque value.
#[verifier::external_type_specification]
#[verifier::external_body]
#[verifier::reject_recursive_types(T)]
pub struct ExMutexGuard<'a, T: ?Sized + 'a>(std::sync::MutexGuard<'a, T>);

/// `std::cell::Cell`, which occurs as a marker only: a type that holds it can be sent
/// to another thread but not shared between threads.
#[verifier::external_type_specification]
#[verifier::external_body]
#[verifier::reject_recursive_types(T)]
pub struct ExCell<T: ?Sized>(std::cell::Cell<T>);

/// `std::sync::Mutex::new` gives a mutex. Nothing is claimed of what it guards.
pub assume_specification<T>[ std::sync::Mutex::<T>::new ](t: T) -> Mutex<T>;

/// `std::sync::Mutex::try_lock` gives a guard, or none while another is held. It does
/// not wait. A guard that comes in an error, as a thread panicked while it held one,
/// is taken out of it. Whether there is a guard depends on the other thread, so
/// nothing is claimed.
#[verifier::external_body]
pub(crate) fn attempt<'a, T>(mutex: &'a Mutex<T>) -> Option<MutexGuard<'a, T>> {
    match mutex.try_lock() {
        Ok(guard) => Some(guard),
        Err(TryLockError::Poisoned(error)) => Some(error.into_inner()),
        Err(TryLockError::WouldBlock) => None,
    }
}

/// `std::sync::MutexGuard::deref_mut` gives access to what the mutex guards. What that
/// is depends on the other thread, so nothing is claimed.
#[verifier::external_body]
pub(crate) fn guarded<'a, 'b, T>(guard: &'a mut MutexGuard<'b, T>) -> &'a mut T {
    guard.deref_mut()
}

/// `std::sync::Mutex::new` once more, for where nothing may unwind: it does not panic.
/// What it gives is what a call with this argument gave.
#[verifier::external_body]
fn fresh<T>(value: T) -> (mutex: Mutex<T>)
    ensures
        call_ensures(Mutex::<T>::new, (value,), mutex),
    opens_invariants none
    no_unwind
{
    Mutex::new(value)
}

/// `std::sync::atomic::AtomicUsize::get_mut` gives access to the value of an atomic that
/// nobody else can reach, which is here read and left as it is. It does not panic. The
/// value is one that a load of the atomic gives; which one depends on earlier accesses.
#[verifier::external_body]
fn settled(atomic: &mut AtomicUsize) -> (value: usize)
    ensures
        call_ensures(AtomicUsize::load, (&*old(atomic), Ordering::Relaxed), value),
        *final(atomic) == *old(atomic),
    opens_invariants none
    no_unwind
{
    *atomic.get_mut()
}

/// `<[T]>::get_mut`, on the elements of a `Vec`, gives access to the element at an index,
/// and nothing where there is none. It does not panic.
#[verifier::external_body]
pub(crate) fn element_mut<T>(elements: &mut Vec<T>, i: usize) -> (element: Option<&mut T>)
    ensures
        element is Some <==> i < old(elements)@.len(),
        element is Some ==> *element->0 == old(elements)@[i as int] && final(elements)@
            == old(elements)@.update(i as int, *final(element->0)),
        element is None ==> final(elements)@ == old(elements)@,
    opens_invariants none
    no_unwind
{
    elements.get_mut(i)
}

/// Calls a function as a value.
fn call_one<A, R, F: FnOnce(A) -> R>(f: F, a: A) -> (result: R)
    requires
        f.requires((a,)),
    ensures
        f.ensures((a,), result),
{
    f(a)
}

/// Calls a function as a value.
fn call_two<A, B, R, F: FnOnce(A, B) -> R>(f: F, a: A, b: B) -> (result: R)
    requires
        f.requires((a, b)),
    ensures
        f.ensures((a, b), result),
{
    f(a, b)
}

/// Calls a function as a value.
fn call_three<A, B, C, R, F: FnOnce(A, B, C) -> R>(f: F, a: A, b: B, c: C) -> (result: R)
    requires
        f.requires((a, b, c)),
    ensures
        f.ensures((a, b, c), result),
{
    f(a, b, c)
}

/// Calls `f` on what `g` gives for `a`.
fn call_through<A, B, R, G: FnOnce(A) -> B, F: FnOnce(B) -> R>(g: G, f: F, a: A) -> (result: R)
    requires
        g.requires((a,)),
        forall|b: B| #[trigger] f.requires((b,)),
    ensures
        exists|b: B| #[trigger] g.ensures((a,), b) && f.ensures((b,), result),
{
    let b = g(a);
    f(b)
}

/// Calls `f` on what `g` gives for `a`, and on `c`.
fn call_through_with<A, B, C, R, G: FnOnce(A) -> B, F: FnOnce(B, C) -> R>(
    g: G,
    f: F,
    a: A,
    c: C,
) -> (result: R)
    requires
        g.requires((a,)),
        forall|b: B| #[trigger] f.requires((b, c)),
    ensures
        exists|b: B| #[trigger] g.ensures((a,), b) && f.ensures((b, c), result),
{
    let b = g(a);
    f(b, c)
}

/// A cell that two threads can hold, and whose contents are reached through a closure.
///
/// The contents lie behind a lock that is tried: an access that finds the other thread
/// inside is refused; it does not wait.
#[derive(Debug)]
#[verifier::reject_recursive_types(L)]
pub struct UnsafeCell<L>(L);

impl<L> UnsafeCell<L> {
    /// The lock that the contents lie behind.
    pub closed spec fn lock(&self) -> L {
        self.0
    }

    /// A cell with the given contents, behind a lock made by a call of `make`.
    pub fn new<T, N: Fn(T) -> L>(make: &N, value: T) -> (cell: Self)
        requires
            make.requires((value,)),
        ensures
            make.ensures((value,), cell.lock()),
    {
        UnsafeCell(make(value))
    }

    /// Calls `f` on the contents and hands on what it returns, unless the other thread
    /// is inside: then `attempt`, which is asked for a guard of the lock, gives none.
    pub fn with_mut<'a, G, T, R, A, D, F>(&'a self, attempt: A, open: D, f: F) -> (result: Option<
        R,
    >) where
        A: FnOnce(&'a L) -> Option<G>,
        D: FnOnce(&mut G) -> &mut T,
        F: FnOnce(&mut T) -> R,

        requires
            attempt.requires((&self.lock(),)),
            forall|guard: &mut G| #[trigger] open.requires((guard,)),
            forall|contents: &mut T| #[trigger] f.requires((contents,)),
        ensures
            result is None ==> attempt.ensures((&self.lock(),), None),
            result is Some ==> exists|guard: &mut G, contents: &mut T| #[trigger]
                open.ensures((guard,), contents) && attempt.ensures((&self.lock(),), Some(*guard))
                    && f.ensures((contents,), result->0),
    {
        match call_one(attempt, &self.0) {
            Some(guard) => {
                let mut guard = guard;
                let result = call_through(open, f, &mut guard);
                Some(result)
            },
            None => None,
        }
    }

    /// Calls `f` on the contents and on `value`, and hands on what it returns, unless
    /// the other thread is inside: then `value` comes back.
    pub fn with_mut_and<'a, G, T, V, R, A, D, F>(
        &'a self,
        attempt: A,
        open: D,
        f: F,
        value: V,
    ) -> (result: Result<R, V>) where
        A: FnOnce(&'a L) -> Option<G>,
        D: FnOnce(&mut G) -> &mut T,
        F: FnOnce(&mut T, V) -> R,

        requires
            attempt.requires((&self.lock(),)),
            forall|guard: &mut G| #[trigger] open.requires((guard,)),
            forall|contents: &mut T| #[trigger] f.requires((contents, value)),
        ensures
            result is Err ==> attempt.ensures((&self.lock(),), None) && result->Err_0 == value,
            result is Ok ==> exists|guard: &mut G, contents: &mut T| #[trigger]
                open.ensures((guard,), contents) && attempt.ensures((&self.lock(),), Some(*guard))
                    && f.ensures((contents, value), result->Ok_0),
    {
        match call_one(attempt, &self.0) {
            Some(guard) => {
                let mut guard = guard;
                let result = call_through_with(open, f, &mut guard, value);
                Ok(result)
            },
            None => Err(value),
        }
    }
}

impl<T> UnsafeCell<Mutex<T>> {
    /// The cell was made with these contents.
    pub(crate) open spec fn made_with(&self, value: T) -> bool {
        call_ensures(Mutex::<T>::new, (value,), self.lock())
    }

    /// This cell's own mutex was asked for a guard, and this is what it gave.
    pub(crate) open spec fn answered(&self, guard: Option<MutexGuard<T>>) -> bool {
        call_ensures(attempt::<T>, (&self.lock(),), guard)
    }

    /// An access to this cell was refused.
    pub(crate) open spec fn refused(&self) -> bool {
        self.answered(None)
    }

    /// A guard of this cell's own mutex gave access to these contents.
    pub(crate) open spec fn gave(&self, contents: &mut T) -> bool {
        exists|guard: &mut MutexGuard<T>|
            self.answered(Some(*guard)) && #[trigger] call_ensures(
                guarded::<T>,
                (guard,),
                contents,
            )
    }
}

/// Gives nothing, which is what a vacant slot holds.
pub(crate) fn nothing<T>() -> (contents: Option<T>)
    ensures
        contents is None,
{
    None
}

/// Puts an element in a slot.
pub(crate) fn fill<T>(place: &mut Option<T>, item: T)
    ensures
        *final(place) == Some(item),
{
    *place = Some(item);
}

impl<T> UnsafeCell<Mutex<Option<T>>> {
    /// The element was put in place of what a guard of this cell's own mutex gave access
    /// to.
    pub(crate) open spec fn was_filled(&self, item: T) -> bool {
        exists|place: &mut Option<T>| #[trigger]
            self.gave(place) && call_ensures(fill::<T>, (place, item), ())
    }

    /// This was taken from what a guard of this cell's own mutex gave access to.
    pub(crate) open spec fn was_emptied(&self, found: Option<T>) -> bool {
        exists|place: &mut Option<T>| #[trigger]
            self.gave(place) && call_ensures(Option::<T>::take, (place,), found)
    }

    /// A cell that holds nothing, made where nothing may unwind.
    pub(crate) fn vacant() -> (cell: Self)
        ensures
            cell.made_with(None),
        opens_invariants none
        no_unwind
    {
        UnsafeCell(fresh(None))
    }
}

/// The calls that the locks of the slots are made of.
impl<T> Lock<T> for Mutex<T> {
    open spec fn made_from(&self, value: T) -> bool {
        call_ensures(Mutex::<T>::new, (value,), *self)
    }
}

impl<'a, T> Guard<T, Mutex<T>> for MutexGuard<'a, T> {
    open spec fn answers(lock: &Mutex<T>, guard: Option<Self>) -> bool {
        call_ensures(attempt::<T>, (lock,), guard)
    }

    open spec fn opens(guard: &mut Self, contents: &mut T) -> bool {
        call_ensures(guarded::<T>, (guard,), contents)
    }
}

/// The calls that change what a slot holds.
impl<T> Place<T> for Option<T> {
    open spec fn given(&self) -> bool {
        call_ensures(nothing::<T>, (), *self)
    }

    open spec fn fills(place: &mut Self, item: T) -> bool {
        call_ensures(fill::<T>, (place, item), ())
    }

    open spec fn empties(place: &mut Self, found: Option<T>) -> bool {
        call_ensures(Option::<T>::take, (place,), found)
    }
}

/// Keeps a value more than a cache line away from the next value that is padded
/// likewise.
pub struct CachePadded<T> {
    value: T,
    _gap: [u64; 8],
}

impl<T> CachePadded<T> {
    /// The value within.
    pub closed spec fn inner(&self) -> T {
        self.value
    }

    /// Pads a value.
    pub fn new(value: T) -> (padded: Self)
        ensures
            padded.inner() == value,
    {
        CachePadded { value, _gap: [0, 0, 0, 0, 0, 0, 0, 0] }
    }
}

impl<T> std::ops::Deref for CachePadded<T> {
    type Target = T;

    fn deref(&self) -> (value: &T)
        ensures
            *value == self.inner(),
    {
        &self.value
    }
}

/// A counter that one thread stores and the other loads.
pub struct Counter<A>(CachePadded<A>);

impl<A> Counter<A> {
    /// The word that holds the counter.
    pub closed spec fn inner(&self) -> A {
        self.0.inner()
    }

    /// A counter at the given value.
    pub fn new<F: Fn(usize) -> A>(make: &F, value: usize) -> (counter: Self)
        requires
            make.requires((value,)),
        ensures
            make.ensures((value,), counter.inner()),
    {
        Counter(CachePadded::new(make(value)))
    }

    /// Reads the counter.
    pub fn load<'a, O, F: FnOnce(&'a A, O) -> usize>(&'a self, load: F, order: O) -> (value: usize)
        requires
            load.requires((&self.inner(), order)),
        ensures
            load.ensures((&self.inner(), order), value),
    {
        call_two(load, &*self.0, order)
    }

    /// Sets the counter.
    pub fn store<'a, O, F: FnOnce(&'a A, usize, O)>(&'a self, store: F, value: usize, order: O)
        requires
            store.requires((&self.inner(), value, order)),
        ensures
            store.ensures((&self.inner(), value, order), ()),
    {
        call_three(store, &*self.0, value, order)
    }
}

impl<A: Word> Counter<A> {
    /// The counter was made with this value.
    pub(crate) open spec fn made_with(&self, value: usize) -> bool {
        self.inner().made_from(value)
    }

    /// The counter was loaded, and this is what it read.
    pub(crate) open spec fn loaded(&self, value: usize) -> bool {
        self.inner().reads(value)
    }

    /// This value was stored in the counter.
    pub(crate) open spec fn stored(&self, value: usize) -> bool {
        self.inner().stores(value)
    }
}

impl Counter<AtomicUsize> {
    /// The counter was read while nobody else could reach it, and stood at this value.
    pub closed spec fn stood_at(&self, value: usize) -> bool {
        call_ensures(AtomicUsize::load, (&self.0.inner(), Ordering::Relaxed), value)
    }

    /// The value of a counter that nobody else can reach.
    pub(crate) fn get(&mut self) -> (value: usize)
        ensures
            old(self).stood_at(value),
            *final(self) == *old(self),
        opens_invariants none
        no_unwind
    {
        settled(&mut self.0.value)
    }
}

/// The calls that the counters are made of: stores are releases, and loads are acquires.
impl Word for AtomicUsize {
    open spec fn made_from(&self, value: usize) -> bool {
        call_ensures(AtomicUsize::new, (value,), *self)
    }

    open spec fn reads(&self, value: usize) -> bool {
        call_ensures(AtomicUsize::load, (self, Ordering::Acquire), value)
    }

    open spec fn stores(&self, value: usize) -> bool {
        call_ensures(AtomicUsize::store, (self, value, Ordering::Release), ())
    }
}

} // verus!
