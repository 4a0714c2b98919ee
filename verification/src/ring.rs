//! The memory that the two endpoints share, and the only ways to reach it.
//!
//! Every access that belongs to the traffic between the endpoints is entered in the
//! trace of the endpoint that makes it, and each function here ensures, beside the
//! entry, that the call which makes the access was made on the counter or the slot in
//! question: see `made_by_producer` and `made_by_consumer`. The counters and the slots lie
//! within a [`Memory`], which lets nobody reach them without an entry, save for a load. So
//! no access is left out of a trace, and nothing changes that the traces do not say.
use std::sync::atomic::{AtomicUsize, Ordering};
use std::sync::Mutex;
#[allow(unused_imports)]
use std::sync::MutexGuard;

use vstd::prelude::*;

use crate::index;
use crate::memory;
use crate::memory::Memory;
use crate::protocol::{ConsumerStep, ProducerStep};
use crate::sync::{attempt, fill, guarded, nothing};

verus! {

/// The trace of the producer on a ring.
pub type ProducerTrace<T> = memory::ProducerTrace<T, Mutex<Option<T>>, AtomicUsize>;

/// The trace of the consumer on a ring.
pub type ConsumerTrace<T> = memory::ConsumerTrace<T, Mutex<Option<T>>, AtomicUsize>;

/// The slots and the two published counters.
#[verifier::reject_recursive_types(T)]
pub struct Ring<T> {
    memory: Memory<Mutex<Option<T>>, AtomicUsize>,
    mask: usize,
}

impl<T> Ring<T> {
    /// The number of slots less one.
    pub closed spec fn mask_bits(&self) -> usize {
        self.mask
    }

    /// The mask fits the slots, and their number is a capacity.
    pub closed spec fn wf(&self) -> bool {
        &&& self.memory.cells().len() == self.mask + 1
        &&& index::is_capacity((self.mask + 1) as nat)
    }

    /// The ring was made with both counters at zero and with every slot vacant.
    pub closed spec fn starts_empty(&self) -> bool {
        &&& self.memory.head().made_with(0)
        &&& self.memory.tail().made_with(0)
        &&& forall|i: int|
            0 <= i < self.memory.cells().len() ==> (#[trigger] self.memory.cells()[i]).made_with(
                None,
            )
        &&& self.memory.vacated() == Seq::<usize>::empty()
    }

    /// This is the trace of the producer on this ring.
    pub closed spec fn has_producer(&self, trace: ProducerTrace<T>) -> bool {
        trace.of(self.memory)
    }

    /// This is the trace of the consumer on this ring.
    pub closed spec fn has_consumer(&self, trace: ConsumerTrace<T>) -> bool {
        trace.of(self.memory)
    }

    /// The consumer's counter was loaded, and this is what it read.
    pub closed spec fn head_was_read(&self, value: usize) -> bool {
        self.memory.head().loaded(value)
    }

    /// The producer's counter was loaded, and this is what it read.
    pub closed spec fn tail_was_read(&self, value: usize) -> bool {
        self.memory.tail().loaded(value)
    }

    /// The access that this step stands for was made to this ring.
    pub closed spec fn made_by_producer(&self, step: ProducerStep<T>) -> bool {
        match step {
            ProducerStep::LoadHead(value) => self.memory.head().loaded(value),
            ProducerStep::Write(slot, item) => {
                &&& slot < self.memory.cells().len()
                &&& self.memory.cells()[slot as int].was_filled(item)
            },
            ProducerStep::Busy(slot) => slot < self.memory.cells().len()
                && self.memory.cells()[slot as int].refused(),
            ProducerStep::StoreTail(value) => self.memory.tail().stored(value),
        }
    }

    /// The access that this step stands for was made to this ring.
    pub closed spec fn made_by_consumer(&self, step: ConsumerStep<T>) -> bool {
        match step {
            ConsumerStep::LoadTail(value) => self.memory.tail().loaded(value),
            ConsumerStep::Take(slot, found) => {
                &&& slot < self.memory.cells().len()
                &&& self.memory.cells()[slot as int].was_emptied(found)
            },
            ConsumerStep::Busy(slot) => slot < self.memory.cells().len()
                && self.memory.cells()[slot as int].refused(),
            ConsumerStep::StoreHead(value) => self.memory.head().stored(value),
        }
    }

    /// `after` is this ring with just these slots vacated, in this order.
    pub closed spec fn vacates(self, after: Self, vacated: Seq<usize>) -> bool {
        &&& after.memory.vacated() =~= self.memory.vacated() + vacated
        &&& after.memory.cells().len() == self.memory.cells().len()
        &&& forall|j: usize|
            j < self.memory.cells().len() ==> if vacated.contains(j) {
                (#[trigger] after.memory.cells()[j as int]).made_with(None)
            } else {
                after.memory.cells()[j as int] == self.memory.cells()[j as int]
            }
    }

    /// `after` is what this ring leaves when it is torn down: the counters were read, and
    /// the slots of the elements between them were vacated, in order.
    pub closed spec fn torn_down(self, after: Self) -> bool {
        exists|head: usize, tail: usize| #[trigger]
            self.memory.stood_at(head, tail) && self.vacates(
                after,
                index::slots_between((self.mask + 1) as nat, head, tail),
            )
    }

    /// To vacate one slot more extends what was vacated.
    proof fn lemma_vacates_one_more(
        self,
        earlier: Self,
        after: Self,
        vacated: Seq<usize>,
        slot: usize,
    )
        requires
            self.vacates(earlier, vacated),
            slot < self.memory.cells().len(),
            after.memory.vacated() == earlier.memory.vacated().push(slot),
            after.memory.cells() == earlier.memory.cells().update(
                slot as int,
                after.memory.cells()[slot as int],
            ),
            after.memory.cells()[slot as int].made_with(None),
        ensures
            self.vacates(after, vacated.push(slot)),
    {
        let more = vacated.push(slot);
        assert forall|j: usize| j < self.memory.cells().len() implies if more.contains(j) {
            (#[trigger] after.memory.cells()[j as int]).made_with(None)
        } else {
            after.memory.cells()[j as int] == self.memory.cells()[j as int]
        } by {
            assert(more[vacated.len() as int] == slot);
            if vacated.contains(j) {
                assert(more[vacated.index_of(j)] == j);
            }
            if j != slot {
                assert(after.memory.cells()[j as int] == earlier.memory.cells()[j as int]);
            }
        }
    }

    /// A ring of vacant slots, as many as the least power of two that is at least
    /// `capacity`, with both counters at zero, and the traces of its two ends.
    pub fn with_capacity(capacity: usize) -> (made: (Self, ProducerTrace<T>, ConsumerTrace<T>))
        requires
            0 < capacity <= usize::MAX / 2 + 1,
        ensures
            made.0.wf(),
            made.0.starts_empty(),
            index::is_capacity((made.0.mask_bits() + 1) as nat),
            index::rounds_up_to(capacity as nat, (made.0.mask_bits() + 1) as nat),
            made.0.has_producer(made.1),
            made.1.steps() == Seq::<ProducerStep<T>>::empty(),
            made.0.has_consumer(made.2),
            made.2.steps() == Seq::<ConsumerStep<T>>::empty(),
    {
        let cap = index::round_up(capacity);
        let (memory, producer, consumer) = Memory::new(
            cap,
            nothing::<T>,
            Mutex::<Option<T>>::new,
            AtomicUsize::new,
        );
        let ring = Ring { memory, mask: cap - 1 };
        (ring, producer, consumer)
    }

    pub fn mask(&self) -> (mask: usize)
        ensures
            mask == self.mask_bits(),
    {
        self.mask
    }

    /// Reads the consumer's counter.
    pub fn peek_head(&self) -> (value: usize)
        ensures
            self.head_was_read(value),
    {
        self.memory.peek_head(AtomicUsize::load, Ordering::Acquire)
    }

    /// Reads the producer's counter.
    pub fn peek_tail(&self) -> (value: usize)
        ensures
            self.tail_was_read(value),
    {
        self.memory.peek_tail(AtomicUsize::load, Ordering::Acquire)
    }

    /// Reads the consumer's counter on behalf of the producer.
    pub fn load_head(&self, trace: &mut ProducerTrace<T>) -> (value: usize)
        requires
            self.has_producer(*old(trace)),
        ensures
            self.has_producer(*final(trace)),
            self.made_by_producer(ProducerStep::LoadHead(value)),
            final(trace).steps() == old(trace).steps().push(ProducerStep::LoadHead(value)),
    {
        self.memory.load_head(AtomicUsize::load, Ordering::Acquire, trace)
    }

    /// Writes an element to a slot, unless the consumer is inside: then it comes back.
    pub fn write(&self, slot: usize, item: T, trace: &mut ProducerTrace<T>) -> (result:
        Result<(), T>)
        requires
            self.wf(),
            self.has_producer(*old(trace)),
            slot <= self.mask_bits(),
        ensures
            self.has_producer(*final(trace)),
            result is Err ==> result->Err_0 == item,
            ({
                let step = if result is Ok {
                    ProducerStep::Write(slot, item)
                } else {
                    ProducerStep::Busy(slot)
                };
                &&& self.made_by_producer(step)
                &&& final(trace).steps() == old(trace).steps().push(step)
            }),
    {
        let ghost written = item;
        let result = self.memory.write(
            slot,
            attempt::<Option<T>>,
            guarded::<Option<T>>,
            fill::<T>,
            item,
            trace,
        );
        proof {
            if result is Ok {
                let cell = self.memory.cells()[slot as int];
                let (guard, place) = choose|
                    guard: &mut MutexGuard<Option<T>>,
                    place: &mut Option<T>,
                | #[trigger]
                    call_ensures(guarded::<Option<T>>, (guard,), place) && call_ensures(
                        attempt::<Option<T>>,
                        (&cell.lock(),),
                        Some(*guard),
                    ) && call_ensures(fill::<T>, (place, written), ());
                assert(cell.answered(Some(*guard)));
                assert(cell.gave(place));
            }
        }
        result
    }

    /// Publishes the producer's counter.
    pub fn store_tail(&self, value: usize, trace: &mut ProducerTrace<T>)
        requires
            self.has_producer(*old(trace)),
        ensures
            self.has_producer(*final(trace)),
            self.made_by_producer(ProducerStep::StoreTail(value)),
            final(trace).steps() == old(trace).steps().push(ProducerStep::StoreTail(value)),
    {
        self.memory.store_tail(AtomicUsize::store, value, Ordering::Release, trace)
    }

    /// Reads the producer's counter on behalf of the consumer.
    pub fn load_tail(&self, trace: &mut ConsumerTrace<T>) -> (value: usize)
        requires
            self.has_consumer(*old(trace)),
        ensures
            self.has_consumer(*final(trace)),
            self.made_by_consumer(ConsumerStep::LoadTail(value)),
            final(trace).steps() == old(trace).steps().push(ConsumerStep::LoadTail(value)),
    {
        self.memory.load_tail(AtomicUsize::load, Ordering::Acquire, trace)
    }

    /// Empties a slot, unless the producer is inside.
    pub fn take(&self, slot: usize, trace: &mut ConsumerTrace<T>) -> (result: Option<
        Option<T>,
    >)
        requires
            self.wf(),
            self.has_consumer(*old(trace)),
            slot <= self.mask_bits(),
        ensures
            self.has_consumer(*final(trace)),
            ({
                let step = match result {
                    Some(found) => ConsumerStep::Take(slot, found),
                    None => ConsumerStep::Busy(slot),
                };
                &&& self.made_by_consumer(step)
                &&& final(trace).steps() == old(trace).steps().push(step)
            }),
    {
        let result = self.memory.take(
            slot,
            attempt::<Option<T>>,
            guarded::<Option<T>>,
            Option::<T>::take,
            trace,
        );
        proof {
            if result is Some {
                let cell = self.memory.cells()[slot as int];
                let (guard, place) = choose|
                    guard: &mut MutexGuard<Option<T>>,
                    place: &mut Option<T>,
                | #[trigger]
                    call_ensures(guarded::<Option<T>>, (guard,), place) && call_ensures(
                        attempt::<Option<T>>,
                        (&cell.lock(),),
                        Some(*guard),
                    ) && call_ensures(Option::<T>::take, (place,), result->0);
                assert(cell.answered(Some(*guard)));
                assert(cell.gave(place));
            }
        }
        result
    }

    /// Publishes the consumer's counter.
    pub fn store_head(&self, value: usize, trace: &mut ConsumerTrace<T>)
        requires
            self.has_consumer(*old(trace)),
        ensures
            self.has_consumer(*final(trace)),
            self.made_by_consumer(ConsumerStep::StoreHead(value)),
            final(trace).steps() == old(trace).steps().push(ConsumerStep::StoreHead(value)),
    {
        self.memory.store_head(AtomicUsize::store, value, Ordering::Release, trace)
    }
}

impl<T> Drop for Ring<T> {
    /// Drops the elements that were never popped, oldest first.
    fn drop(&mut self)
        ensures
            old(self).wf() ==> old(self).torn_down(*final(self)),
        opens_invariants none
        no_unwind
    {
        let (first, tail) = self.memory.rest();
        let ghost capacity = (self.mask + 1) as nat;
        let ghost left = index::slots_between(capacity, first, tail);
        let ghost mut done: int = 0;
        let mut head = first;
        proof {
            index::lemma_wraps(first as nat);
        }
        while head != tail
            invariant
                self.mask == old(self).mask,
                old(self).memory.stood_at(first, tail),
                capacity == self.mask + 1,
                left == index::slots_between(capacity, first, tail),
                0 <= done <= left.len(),
                head == index::counter((first + done) as nat),
                index::distance(tail, head) == left.len() - done,
                old(self).wf() ==> old(self).vacates(*self, left.take(done)),
            decreases index::distance(tail, head),
        {
            let slot = head & self.mask;
            let ghost earlier = *self;
            self.memory.vacate(slot);
            proof {
                index::lemma_wraps((first + done) as nat);
                if old(self).wf() {
                    index::lemma_masked(head, self.mask);
                    index::lemma_wrapped_slot(capacity, (first + done) as nat);
                    old(self).lemma_vacates_one_more(earlier, *self, left.take(done), slot);
                    assert(left.take(done + 1) =~= left.take(done).push(slot));
                }
                done = done + 1;
            }
            head = if head == usize::MAX {
                0
            } else {
                head + 1
            };
        }
        proof {
            assert(left.take(done) =~= left);
        }
    }
}

} // verus!
