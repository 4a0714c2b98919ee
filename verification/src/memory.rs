//! What two ends share, and the record of who did what to it.
//!
//! The code here does not know what a counter or a cell is: their types are parameters,
//! and so are the functions that read and write them. So all that it can do to a counter
//! or a cell is to call such a function on it, and a function is handed over for one call
//! only. A call that may change something is entered in the trace of the end that makes
//! it, and the memory is made together with the one trace of each end. As nobody else can
//! reach what lies within, nothing happens to it but what the two traces say.
//!
//! Which functions these may be is up to the types: see [`Word`], [`Lock`], [`Guard`] and
//! [`Place`]. It must be known of a function that it can give all that the type says such
//! a call can give. This is known of the very function that the type names, and of no
//! other, as nothing is ever known to come out of a function before it is called.
use std::sync::atomic::AtomicUsize;
use std::sync::Mutex;

use vstd::prelude::*;

use crate::protocol::{ConsumerStep, ProducerStep};
#[allow(unused_imports)]
use crate::slots;
use crate::slots::Slots;
use crate::sync::{Counter, UnsafeCell};

verus! {

/// What the calls on a word of shared memory can give.
pub(crate) trait Word: Sized {
    /// The call that makes a word with this value can give this one.
    spec fn made_from(&self, value: usize) -> bool;

    /// The call that loads the word can give this value.
    spec fn reads(&self, value: usize) -> bool;

    /// The call that stores this value in the word can return.
    spec fn stores(&self, value: usize) -> bool;
}

/// What the calls on a lock of shared memory can give, which guards a value.
pub(crate) trait Lock<V>: Sized {
    /// The call that makes a lock around this value can give this one.
    spec fn made_from(&self, value: V) -> bool;
}

/// What the calls that go through a guard of a lock can give.
pub(crate) trait Guard<V, L>: Sized {
    /// The call that asks a lock for a guard can give this.
    spec fn answers(lock: &L, guard: Option<Self>) -> bool;

    /// The call that leads from a guard to what is guarded can give this.
    spec fn opens(guard: &mut Self, contents: &mut V) -> bool;
}

/// What the calls on the contents of a slot can give, which is an element or nothing.
pub(crate) trait Place<T>: Sized {
    /// The call that gives the contents of a vacant slot can give these.
    spec fn given(&self) -> bool;

    /// The call that puts this element in its place can return.
    spec fn fills(place: &mut Self, item: T) -> bool;

    /// The call that takes out what there is can give this.
    spec fn empties(place: &mut Self, found: Option<T>) -> bool;
}

/// The slots and the two published counters.
#[verifier::reject_recursive_types(L)]
#[verifier::reject_recursive_types(A)]
pub struct Memory<L, A> {
    slots: Slots<UnsafeCell<L>>,
    head: Counter<A>,
    tail: Counter<A>,
}

/// The accesses of a producer to its memory so far.
///
/// A memory is made together with the one trace of each end, and an access takes no other
/// trace than that of its own memory. So a trace holds all accesses of its end.
#[verifier::reject_recursive_types(T)]
#[verifier::reject_recursive_types(L)]
#[verifier::reject_recursive_types(A)]
pub struct ProducerTrace<T, L, A> {
    steps: Ghost<Seq<ProducerStep<T>>>,
    memory: Ghost<Memory<L, A>>,
}

impl<T, L, A> ProducerTrace<T, L, A> {
    /// The accesses, in the order in which they were made.
    pub closed spec fn steps(&self) -> Seq<ProducerStep<T>> {
        self.steps@
    }

    /// This is the trace of the producer on that memory.
    pub closed spec fn of(&self, memory: Memory<L, A>) -> bool {
        self.memory@ == memory
    }
}

/// The accesses of a consumer to its memory so far.
///
/// A memory is made together with the one trace of each end, and an access takes no other
/// trace than that of its own memory. So a trace holds all accesses of its end.
#[verifier::reject_recursive_types(T)]
#[verifier::reject_recursive_types(L)]
#[verifier::reject_recursive_types(A)]
pub struct ConsumerTrace<T, L, A> {
    steps: Ghost<Seq<ConsumerStep<T>>>,
    memory: Ghost<Memory<L, A>>,
}

impl<T, L, A> ConsumerTrace<T, L, A> {
    /// The accesses, in the order in which they were made.
    pub closed spec fn steps(&self) -> Seq<ConsumerStep<T>> {
        self.steps@
    }

    /// This is the trace of the consumer on that memory.
    pub closed spec fn of(&self, memory: Memory<L, A>) -> bool {
        self.memory@ == memory
    }
}

impl<L, A> Memory<L, A> {
    /// The cells of the slots.
    pub closed spec fn cells(&self) -> Seq<UnsafeCell<L>> {
        self.slots.cells()
    }

    /// The slots that were vacated for good, in the order in which they were.
    pub closed spec fn vacated(&self) -> Seq<usize> {
        self.slots.vacated()
    }

    /// The consumer's counter.
    pub closed spec fn head(&self) -> Counter<A> {
        self.head
    }

    /// The producer's counter.
    pub closed spec fn tail(&self) -> Counter<A> {
        self.tail
    }

    /// A memory of vacant slots with both counters at zero, and the traces of its ends,
    /// neither of which has accessed anything.
    pub(crate) fn new<T, V, Z: Fn() -> V, K: Fn(V) -> L, N: Fn(usize) -> A>(
        len: usize,
        nothing: Z,
        lock: K,
        word: N,
    ) -> (made: (Self, ProducerTrace<T, L, A>, ConsumerTrace<T, L, A>)) where
        V: Place<T>,
        L: Lock<V>,
        A: Word,

        requires
            nothing.requires(()),
            forall|v: V| #[trigger] lock.requires((v,)),
            word.requires((0,)),
            forall|v: V| #[trigger] v.given() ==> nothing.ensures((), v),
            forall|l: L, v: V| #[trigger] l.made_from(v) ==> lock.ensures((v,), l),
            forall|a: A| #[trigger] a.made_from(0) ==> word.ensures((0,), a),
        ensures
            made.0.cells().len() == len,
            forall|i: int|
                0 <= i < len ==> slots::made_new(&lock, &nothing, #[trigger] made.0.cells()[i]),
            made.0.vacated() == Seq::<usize>::empty(),
            word.ensures((0,), made.0.head().inner()),
            word.ensures((0,), made.0.tail().inner()),
            made.1.of(made.0),
            made.1.steps() == Seq::<ProducerStep<T>>::empty(),
            made.2.of(made.0),
            made.2.steps() == Seq::<ConsumerStep<T>>::empty(),
    {
        let slots = Slots::<UnsafeCell<L>>::new(&lock, &nothing, len);
        let head = Counter::new(&word, 0);
        let tail = Counter::new(&word, 0);
        let memory = Memory { slots, head, tail };
        let producer = ProducerTrace { steps: Ghost(Seq::empty()), memory: Ghost(memory) };
        let consumer = ConsumerTrace { steps: Ghost(Seq::empty()), memory: Ghost(memory) };
        (memory, producer, consumer)
    }

    /// Loads the consumer's counter. Nothing is entered in a trace.
    pub(crate) fn peek_head<'a, O, F: FnOnce(&'a A, O) -> usize>(
        &'a self,
        load: F,
        order: O,
    ) -> (value: usize) where A: Word
        requires
            forall|word: &'a A| #[trigger] load.requires((word, order)),
            forall|word: &'a A, value: usize| #[trigger]
                word.reads(value) ==> load.ensures((word, order), value),
        ensures
            load.ensures((&self.head().inner(), order), value),
    {
        self.head.load(load, order)
    }

    /// Loads the producer's counter. Nothing is entered in a trace.
    pub(crate) fn peek_tail<'a, O, F: FnOnce(&'a A, O) -> usize>(
        &'a self,
        load: F,
        order: O,
    ) -> (value: usize) where A: Word
        requires
            forall|word: &'a A| #[trigger] load.requires((word, order)),
            forall|word: &'a A, value: usize| #[trigger]
                word.reads(value) ==> load.ensures((word, order), value),
        ensures
            load.ensures((&self.tail().inner(), order), value),
    {
        self.tail.load(load, order)
    }

    /// Loads the consumer's counter on behalf of the producer.
    pub(crate) fn load_head<'a, T, O, F: FnOnce(&'a A, O) -> usize>(
        &'a self,
        load: F,
        order: O,
        trace: &mut ProducerTrace<T, L, A>,
    ) -> (value: usize) where A: Word
        requires
            old(trace).of(*self),
            forall|word: &'a A| #[trigger] load.requires((word, order)),
            forall|word: &'a A, value: usize| #[trigger]
                word.reads(value) ==> load.ensures((word, order), value),
        ensures
            final(trace).of(*self),
            load.ensures((&self.head().inner(), order), value),
            final(trace).steps() == old(trace).steps().push(ProducerStep::LoadHead(value)),
    {
        let value = self.head.load(load, order);
        trace.steps = Ghost(trace.steps@.push(ProducerStep::LoadHead(value)));
        value
    }

    /// Loads the producer's counter on behalf of the consumer.
    pub(crate) fn load_tail<'a, T, O, F: FnOnce(&'a A, O) -> usize>(
        &'a self,
        load: F,
        order: O,
        trace: &mut ConsumerTrace<T, L, A>,
    ) -> (value: usize) where A: Word
        requires
            old(trace).of(*self),
            forall|word: &'a A| #[trigger] load.requires((word, order)),
            forall|word: &'a A, value: usize| #[trigger]
                word.reads(value) ==> load.ensures((word, order), value),
        ensures
            final(trace).of(*self),
            load.ensures((&self.tail().inner(), order), value),
            final(trace).steps() == old(trace).steps().push(ConsumerStep::LoadTail(value)),
    {
        let value = self.tail.load(load, order);
        trace.steps = Ghost(trace.steps@.push(ConsumerStep::LoadTail(value)));
        value
    }

    /// Stores the producer's counter.
    pub(crate) fn store_tail<'a, T, O, F: FnOnce(&'a A, usize, O)>(
        &'a self,
        store: F,
        value: usize,
        order: O,
        trace: &mut ProducerTrace<T, L, A>,
    ) where A: Word
        requires
            old(trace).of(*self),
            forall|word: &'a A| #[trigger] store.requires((word, value, order)),
            forall|word: &'a A| #[trigger]
                word.stores(value) ==> store.ensures((word, value, order), ()),
        ensures
            final(trace).of(*self),
            store.ensures((&self.tail().inner(), value, order), ()),
            final(trace).steps() == old(trace).steps().push(ProducerStep::StoreTail(value)),
    {
        self.tail.store(store, value, order);
        trace.steps = Ghost(trace.steps@.push(ProducerStep::StoreTail(value)));
    }

    /// Stores the consumer's counter.
    pub(crate) fn store_head<'a, T, O, F: FnOnce(&'a A, usize, O)>(
        &'a self,
        store: F,
        value: usize,
        order: O,
        trace: &mut ConsumerTrace<T, L, A>,
    ) where A: Word
        requires
            old(trace).of(*self),
            forall|word: &'a A| #[trigger] store.requires((word, value, order)),
            forall|word: &'a A| #[trigger]
                word.stores(value) ==> store.ensures((word, value, order), ()),
        ensures
            final(trace).of(*self),
            store.ensures((&self.head().inner(), value, order), ()),
            final(trace).steps() == old(trace).steps().push(ConsumerStep::StoreHead(value)),
    {
        self.head.store(store, value, order);
        trace.steps = Ghost(trace.steps@.push(ConsumerStep::StoreHead(value)));
    }

    /// Puts an element in a slot, unless it is refused.
    pub(crate) fn write<'a, T, V, G, Q, D, F>(
        &'a self,
        slot: usize,
        attempt: Q,
        open: D,
        fill: F,
        item: T,
        trace: &mut ProducerTrace<T, L, A>,
    ) -> (result: Result<(), T>) where
        V: Place<T>,
        G: Guard<V, L>,
        Q: FnOnce(&'a L) -> Option<G>,
        D: FnOnce(&mut G) -> &mut V,
        F: FnOnce(&mut V, T),

        requires
            old(trace).of(*self),
            slot < self.cells().len(),
            forall|lock: &'a L| #[trigger] attempt.requires((lock,)),
            forall|guard: &mut G| #[trigger] open.requires((guard,)),
            forall|place: &mut V| #[trigger] fill.requires((place, item)),
            forall|lock: &'a L, guard: Option<G>| #[trigger]
                G::answers(lock, guard) ==> attempt.ensures((lock,), guard),
            forall|guard: &mut G, contents: &mut V| #[trigger]
                G::opens(guard, contents) ==> open.ensures((guard,), contents),
            forall|place: &mut V| #[trigger]
                V::fills(place, item) ==> fill.ensures((place, item), ()),
        ensures
            final(trace).of(*self),
            ({
                let lock = self.cells()[slot as int].lock();
                let step = if result is Ok {
                    ProducerStep::Write(slot, item)
                } else {
                    ProducerStep::Busy(slot)
                };
                &&& result is Err ==> attempt.ensures((&lock,), None) && result->Err_0 == item
                &&& result is Ok ==> exists|guard: &mut G, contents: &mut V| #[trigger]
                    open.ensures((guard,), contents) && attempt.ensures((&lock,), Some(*guard))
                        && fill.ensures((contents, item), ())
                &&& final(trace).steps() == old(trace).steps().push(step)
            }),
    {
        let ghost written = item;
        let result = self.slots.cell(slot).with_mut_and(attempt, open, fill, item);
        let ghost step = if result is Ok {
            ProducerStep::Write(slot, written)
        } else {
            ProducerStep::Busy(slot)
        };
        trace.steps = Ghost(trace.steps@.push(step));
        result
    }

    /// Empties a slot, unless it is refused.
    pub(crate) fn take<'a, T, V, G, Q, D, F>(
        &'a self,
        slot: usize,
        attempt: Q,
        open: D,
        empty: F,
        trace: &mut ConsumerTrace<T, L, A>,
    ) -> (result: Option<Option<T>>) where
        V: Place<T>,
        G: Guard<V, L>,
        Q: FnOnce(&'a L) -> Option<G>,
        D: FnOnce(&mut G) -> &mut V,
        F: FnOnce(&mut V) -> Option<T>,

        requires
            old(trace).of(*self),
            slot < self.cells().len(),
            forall|lock: &'a L| #[trigger] attempt.requires((lock,)),
            forall|guard: &mut G| #[trigger] open.requires((guard,)),
            forall|place: &mut V| #[trigger] empty.requires((place,)),
            forall|lock: &'a L, guard: Option<G>| #[trigger]
                G::answers(lock, guard) ==> attempt.ensures((lock,), guard),
            forall|guard: &mut G, contents: &mut V| #[trigger]
                G::opens(guard, contents) ==> open.ensures((guard,), contents),
            forall|place: &mut V, found: Option<T>| #[trigger]
                V::empties(place, found) ==> empty.ensures((place,), found),
        ensures
            final(trace).of(*self),
            ({
                let lock = self.cells()[slot as int].lock();
                let step = match result {
                    Some(found) => ConsumerStep::Take(slot, found),
                    None => ConsumerStep::Busy(slot),
                };
                &&& result is None ==> attempt.ensures((&lock,), None)
                &&& result is Some ==> exists|guard: &mut G, contents: &mut V| #[trigger]
                    open.ensures((guard,), contents) && attempt.ensures((&lock,), Some(*guard))
                        && empty.ensures((contents,), result->0)
                &&& final(trace).steps() == old(trace).steps().push(step)
            }),
    {
        let result = self.slots.cell(slot).with_mut(attempt, open, empty);
        let ghost step = if result is Some {
            ConsumerStep::Take(slot, result->0)
        } else {
            ConsumerStep::Busy(slot)
        };
        trace.steps = Ghost(trace.steps@.push(step));
        result
    }
}

impl<T> Memory<Mutex<Option<T>>, AtomicUsize> {
    /// The counters were read while nobody else could reach them, and stood at these
    /// values.
    pub closed spec fn stood_at(&self, head: usize, tail: usize) -> bool {
        self.head.stood_at(head) && self.tail.stood_at(tail)
    }

    /// The values of the two counters, the consumer's first, when nobody else can reach
    /// them.
    pub(crate) fn rest(&mut self) -> (counters: (usize, usize))
        ensures
            old(self).stood_at(counters.0, counters.1),
            *final(self) == *old(self),
        opens_invariants none
        no_unwind
    {
        let head = self.head.get();
        let tail = self.tail.get();
        (head, tail)
    }

    /// Drops what a slot holds and leaves a vacant cell in its place. Where there is no
    /// such slot, nothing happens.
    pub(crate) fn vacate(&mut self, slot: usize)
        ensures
            slot < old(self).cells().len() ==> {
                &&& final(self).vacated() == old(self).vacated().push(slot)
                &&& final(self).cells() == old(self).cells().update(
                    slot as int,
                    final(self).cells()[slot as int],
                )
                &&& final(self).cells()[slot as int].made_with(None)
            },
            slot >= old(self).cells().len() ==> {
                &&& final(self).vacated() == old(self).vacated()
                &&& final(self).cells() == old(self).cells()
            },
        opens_invariants none
        no_unwind
    {
        self.slots.vacate(slot);
    }
}

} // verus!
