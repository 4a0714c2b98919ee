//! The producing endpoint.
use std::cell::Cell;
use std::marker::PhantomData;
use std::sync::Arc;

use vstd::prelude::*;

use crate::index;
use crate::protocol;
use crate::protocol::ProducerStep;
use crate::ring::{ProducerTrace, Ring};

verus! {

/// The producing endpoint of a channel.
#[verifier::reject_recursive_types(T)]
pub struct Producer<T> {
    mask: usize,
    /// Own counter, mirrors the one in the ring.
    tail: usize,
    /// The consumer's counter as last loaded.
    head_cache: usize,
    ring: Arc<Ring<T>>,
    /// All accesses to the ring so far.
    trace: ProducerTrace<T>,
    _marker: PhantomData<Cell<()>>,
}

impl<T> Producer<T> {
    /// The number of slots.
    pub closed spec fn cap(&self) -> nat {
        (self.mask + 1) as nat
    }

    /// The producer's own counter.
    pub closed spec fn tail_counter(&self) -> usize {
        self.tail
    }

    /// The consumer's counter as this endpoint remembers it.
    pub closed spec fn head_counter(&self) -> usize {
        self.head_cache
    }

    /// All accesses to the ring so far.
    pub closed spec fn trace(&self) -> Seq<ProducerStep<T>> {
        self.trace.steps()
    }

    /// The elements pushed so far, oldest first.
    pub open spec fn sent(&self) -> Seq<T> {
        protocol::sent(self.trace())
    }

    /// The handle fits the ring that it holds, and its trace is that of this ring.
    pub closed spec fn fits(&self) -> bool {
        &&& self.ring.wf()
        &&& self.ring.mask_bits() == self.mask
        &&& self.ring.has_producer(self.trace)
    }

    /// Every access in the trace was made to the ring that this handle holds.
    pub closed spec fn made(&self) -> bool {
        forall|i: int|
            0 <= i < self.trace().len() ==> self.ring.made_by_producer(#[trigger] self.trace()[i])
    }

    /// The ring was made with both counters at zero and with every slot vacant.
    pub closed spec fn starts_empty(&self) -> bool {
        self.ring.starts_empty()
    }

    /// What holds of a producer at any point of a call.
    spec fn coherent(&self) -> bool {
        &&& self.fits()
        &&& self.starts_empty()
        &&& self.made()
        &&& index::is_capacity(self.cap())
        &&& protocol::producer_obeys(self.cap(), self.trace())
        &&& self.tail == index::counter(protocol::published(self.trace()))
        &&& self.head_cache == protocol::head_seen(self.trace())
    }

    /// What holds of a producer between calls: its trace obeys the rules and was made on
    /// a ring that started empty, its counters are those of the trace, and all that was
    /// written is published.
    pub open spec fn wf(&self) -> bool {
        &&& self.fits()
        &&& self.starts_empty()
        &&& self.made()
        &&& index::is_capacity(self.cap())
        &&& protocol::producer_obeys(self.cap(), self.trace())
        &&& self.tail_counter() == index::counter(self.sent().len())
        &&& self.head_counter() == protocol::head_seen(self.trace())
        &&& protocol::published(self.trace()) == self.sent().len()
    }

    /// The ring looks full to this endpoint.
    pub open spec fn looks_full(self) -> bool {
        index::is_full(self.cap(), self.tail_counter(), self.head_counter())
    }

    /// The room in the ring as it looks to this endpoint.
    pub open spec fn room(self) -> int {
        index::room(self.cap(), self.tail_counter(), self.head_counter())
    }

    /// The ring itself.
    pub(crate) closed spec fn shared(&self) -> Arc<Ring<T>> {
        self.ring
    }

    /// Both handles hold the same ring.
    pub closed spec fn same_ring(self, other: Self) -> bool {
        self.ring == other.ring
    }

    /// Handles of the same ring share it.
    pub(crate) proof fn lemma_same_ring(self, other: Self)
        requires
            self.same_ring(other),
        ensures
            self.shared() == other.shared(),
    {
    }

    /// The consumer's counter was loaded, and this is what it read.
    pub closed spec fn head_was_read(&self, value: usize) -> bool {
        self.ring.head_was_read(value)
    }

    /// `after` is a later state of this endpoint. It remembers the same counter of the
    /// consumer, unless that was loaded anew.
    pub open spec fn reloads_head(self, after: Self, reloads: bool) -> bool {
        &&& self.same_ring(after)
        &&& after.cap() == self.cap()
        &&& !reloads ==> after.head_counter() == self.head_counter()
    }

    /// What a push does. The consumer's counter is loaded if and only if the ring looks
    /// full without it. The element comes back if the ring looks full then, or if its
    /// slot is refused; otherwise it is written to the next slot, and after that the
    /// counter that publishes it is stored. All of this is done to the ring itself.
    pub open spec fn push_effect(self, after: Self, item: T, result: Result<(), T>) -> bool {
        let full = index::is_full(self.cap(), self.tail_counter(), after.head_counter());
        let items = if result is Ok {
            seq![item]
        } else {
            seq![]
        };
        &&& self.reloads_head(after, self.looks_full())
        &&& full ==> result is Err
        &&& result == Ok::<(), T>(()) || result == Err::<(), T>(item)
        &&& after.sent() =~= self.sent() + items
        &&& after.tail_counter() == index::counter(self.sent().len() + items.len())
        &&& after.trace() =~= self.trace() + protocol::head_load(
            self.looks_full(),
            after.head_counter(),
        ) + protocol::write_steps(self.cap(), self.sent().len(), items) + protocol::write_refused(
            result is Err && !full,
            self.cap(),
            self.sent().len(),
        ) + protocol::tail_store(result is Ok, after.tail_counter())
        &&& after.made()
    }

    /// What a push of a slice does. The consumer's counter is loaded if and only if the
    /// slice does not seem to fit without it. As many elements as then fit are written
    /// to the next slots, in order, unless one is refused, which ends it. After that
    /// the counter that publishes them is stored, once, if there are any. All of this is
    /// done to the ring itself.
    pub open spec fn push_slice_effect(self, after: Self, items: Seq<T>, pushed: nat) -> bool {
        let room = index::room(self.cap(), self.tail_counter(), after.head_counter());
        let wanted = vstd::math::min(items.len() as int, room);
        let reloads = items.len() > self.room();
        &&& self.reloads_head(after, reloads)
        &&& pushed <= wanted
        &&& after.sent() =~= self.sent() + items.take(pushed as int)
        &&& after.tail_counter() == index::counter(self.sent().len() + pushed)
        &&& after.trace() =~= self.trace() + protocol::head_load(reloads, after.head_counter())
            + protocol::write_steps(self.cap(), self.sent().len(), items.take(pushed as int))
            + protocol::write_refused(pushed < wanted, self.cap(), self.sent().len() + pushed)
            + protocol::tail_store(pushed > 0, after.tail_counter())
        &&& after.made()
    }

    /// The producer of a new ring.
    pub(crate) fn new(ring: Arc<Ring<T>>, trace: ProducerTrace<T>) -> (producer: Self)
        requires
            ring.has_producer(trace),
            trace.steps() == Seq::<ProducerStep<T>>::empty(),
            ring.wf(),
            ring.starts_empty(),
            index::is_capacity((ring.mask_bits() + 1) as nat),
        ensures
            producer.wf(),
            producer.shared() == ring,
            producer.cap() == ring.mask_bits() + 1,
            producer.trace() == Seq::<ProducerStep<T>>::empty(),
    {
        proof {
            index::lemma_start();
        }
        Producer {
            mask: ring.mask(),
            tail: 0,
            head_cache: 0,
            ring,
            trace,
            _marker: PhantomData,
        }
    }

    /// Loads the consumer's counter.
    fn load_head(&mut self)
        requires
            old(self).coherent(),
        ensures
            final(self).coherent(),
            final(self).mask == old(self).mask,
            final(self).ring == old(self).ring,
            final(self).tail == old(self).tail,
            final(self).trace() == old(self).trace().push(
                ProducerStep::LoadHead(final(self).head_cache),
            ),
            final(self).sent() == old(self).sent(),
            protocol::published(final(self).trace()) == protocol::published(
                old(self).trace(),
            ),
    {
        let ghost before = self.trace();
        self.head_cache = self.ring.load_head(&mut self.trace);
        proof {
            protocol::lemma_producer_step(
                self.cap(),
                before,
                ProducerStep::LoadHead(self.head_cache),
            );
        }
    }

    /// Fills the slot that lies `offset` past the counter, unless it is refused.
    fn write(&mut self, offset: usize, item: T) -> (result: Result<(), T>)
        requires
            old(self).coherent(),
            protocol::published(old(self).trace()) + offset == old(self).sent().len(),
            !index::is_full(
                old(self).cap(),
                index::counter(old(self).sent().len()),
                old(self).head_cache,
            ),
        ensures
            final(self).coherent(),
            final(self).mask == old(self).mask,
            final(self).ring == old(self).ring,
            final(self).tail == old(self).tail,
            final(self).head_cache == old(self).head_cache,
            result is Err ==> result->Err_0 == item,
            ({
                let slot = index::slot_of(old(self).cap(), old(self).sent().len());
                final(self).trace() == old(self).trace().push(
                    if result is Ok {
                        ProducerStep::Write(slot, item)
                    } else {
                        ProducerStep::Busy(slot)
                    },
                )
            }),
            final(self).sent() == (if result is Ok {
                old(self).sent().push(item)
            } else {
                old(self).sent()
            }),
            protocol::published(final(self).trace()) == protocol::published(old(self).trace()),
    {
        proof {
            index::lemma_advance(protocol::published(self.trace()), offset);
            index::lemma_wrapped_slot(self.cap(), self.sent().len());
        }
        let slot = index::masked(self.tail.wrapping_add(offset), self.mask);
        proof {
            protocol::lemma_producer_step(
                self.cap(),
                self.trace(),
                ProducerStep::Write(slot, item),
            );
            protocol::lemma_producer_step(self.cap(), self.trace(), ProducerStep::Busy(slot));
        }
        self.ring.write(slot, item, &mut self.trace)
    }

    /// Stores the counter, which publishes `count` elements.
    fn publish(&mut self, count: usize)
        requires
            old(self).coherent(),
            protocol::published(old(self).trace()) + count == old(self).sent().len(),
        ensures
            final(self).wf(),
            final(self).mask == old(self).mask,
            final(self).ring == old(self).ring,
            final(self).tail == index::counter(old(self).sent().len()),
            final(self).head_cache == old(self).head_cache,
            final(self).trace() == old(self).trace().push(
                ProducerStep::StoreTail(final(self).tail),
            ),
            final(self).sent() == old(self).sent(),
    {
        proof {
            index::lemma_advance(protocol::published(self.trace()), count);
        }
        self.tail = self.tail.wrapping_add(count);
        proof {
            protocol::lemma_producer_step(
                self.cap(),
                self.trace(),
                ProducerStep::StoreTail(self.tail),
            );
        }
        self.ring.store_tail(self.tail, &mut self.trace);
    }

    /// Pushes one element, handing it back as `Err(item)` when the ring is full.
    ///
    /// The consumer's counter is loaded only when the ring looks full without it.
    /// The element is in its slot before the counter that publishes it is stored.
    pub fn push(&mut self, item: T) -> (result: Result<(), T>)
        requires
            old(self).wf(),
        ensures
            final(self).wf(),
            old(self).push_effect(*final(self), item, result),
    {
        proof {
            index::lemma_capacity(self.cap());
        }
        let capacity = self.mask + 1;
        if self.tail.wrapping_sub(self.head_cache) == capacity {
            self.load_head();
            if self.tail.wrapping_sub(self.head_cache) == capacity {
                return Err(item);
            }
        }
        proof {
            index::lemma_advance(self.sent().len(), 1);
        }
        match self.write(0, item) {
            Ok(()) => {
                self.publish(1);
                Ok(())
            },
            Err(item) => Err(item),
        }
    }

    /// Copies as many leading elements of `items` as fit, returning how many were
    /// pushed.
    ///
    /// The consumer's counter is loaded only when the slice does not fit without it.
    /// The whole batch is published with a single store.
    pub fn push_slice(&mut self, items: &[T]) -> (pushed: usize) where T: Copy
        requires
            old(self).wf(),
        ensures
            final(self).wf(),
            old(self).push_slice_effect(*final(self), items@, pushed as nat),
    {
        proof {
            index::lemma_capacity(self.cap());
        }
        let capacity = self.mask + 1;
        let mut free = capacity.saturating_sub(self.tail.wrapping_sub(self.head_cache));
        if free < items.len() {
            self.load_head();
            free = capacity.saturating_sub(self.tail.wrapping_sub(self.head_cache));
        }
        let n = if items.len() < free {
            items.len()
        } else {
            free
        };
        let ghost before = self.trace();
        let ghost start = self.sent();
        let ghost head = self.head_cache;
        let mut i: usize = 0;
        let mut refused = false;
        while i < n && !refused
            invariant
                i <= n <= items.len(),
                n <= index::room(self.cap(), self.tail, self.head_cache),
                self.mask == old(self).mask,
                self.ring == old(self).ring,
                self.tail == old(self).tail,
                self.head_cache == head,
                self.coherent(),
                protocol::published(self.trace()) == start.len(),
                self.sent() == start + items@.take(i as int),
                refused ==> i < n,
                self.trace() == before + protocol::write_steps(
                    self.cap(),
                    start.len(),
                    items@.take(i as int),
                ) + protocol::write_refused(refused, self.cap(), start.len() + i as nat),
            decreases
                    n - i,
                    if refused {
                        0int
                    } else {
                        1int
                    },
        {
            proof {
                index::lemma_capacity(self.cap());
                index::lemma_advance(start.len(), i);
                index::lemma_distance_grows(self.tail, self.head_cache, i);
                assert(items@.take(i + 1) =~= items@.take(i as int).push(items@[i as int]));
            }
            match self.write(i, items[i]) {
                Ok(()) => {
                    i = i + 1;
                },
                Err(_) => {
                    refused = true;
                },
            }
        }
        if i > 0 {
            proof {
                index::lemma_advance(start.len(), i);
            }
            self.publish(i);
        }
        i
    }

    /// The number of elements queued when the consumer's counter stands at `head`.
    pub fn len_at(&self, head: usize) -> (len: usize)
        ensures
            len == index::distance(self.tail_counter(), head),
    {
        self.tail.wrapping_sub(head)
    }

    /// Whether nothing is queued when the consumer's counter stands at `head`.
    pub fn is_empty_at(&self, head: usize) -> (empty: bool)
        ensures
            empty == index::is_empty(self.tail_counter(), head),
    {
        self.len_at(head) == 0
    }

    /// Whether there is no room when the consumer's counter stands at `head`.
    pub fn is_full_at(&self, head: usize) -> (full: bool)
        requires
            index::is_capacity(self.cap()),
        ensures
            full == index::is_full(self.cap(), self.tail_counter(), head),
    {
        self.len_at(head) == self.capacity()
    }

    /// Number of elements currently queued, with the consumer's counter as it is read
    /// now.
    pub fn len(&self) -> (len: usize)
        ensures
            exists|head: usize| #[trigger]
                self.head_was_read(head) && len == index::distance(self.tail_counter(), head),
    {
        let head = self.ring.peek_head();
        assert(self.head_was_read(head));
        self.len_at(head)
    }

    /// Whether nothing is currently queued, with the consumer's counter as it is read
    /// now.
    pub fn is_empty(&self) -> (empty: bool)
        ensures
            exists|head: usize| #[trigger]
                self.head_was_read(head) && empty == index::is_empty(self.tail_counter(), head),
    {
        let head = self.ring.peek_head();
        assert(self.head_was_read(head));
        self.is_empty_at(head)
    }

    /// Whether there is currently no room, with the consumer's counter as it is read
    /// now.
    pub fn is_full(&self) -> (full: bool)
        requires
            index::is_capacity(self.cap()),
        ensures
            exists|head: usize| #[trigger]
                self.head_was_read(head) && full == index::is_full(
                    self.cap(),
                    self.tail_counter(),
                    head,
                ),
    {
        let head = self.ring.peek_head();
        assert(self.head_was_read(head));
        self.is_full_at(head)
    }

    /// The number of elements that the ring holds at most.
    pub fn capacity(&self) -> (capacity: usize)
        requires
            index::is_capacity(self.cap()),
        ensures
            capacity == self.cap(),
    {
        proof {
            index::lemma_capacity(self.cap());
        }
        self.mask + 1
    }
}

} // verus!
