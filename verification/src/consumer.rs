//! The consuming endpoint.
use std::cell::Cell;
use std::marker::PhantomData;
use std::sync::Arc;

use vstd::prelude::*;

use crate::index;
use crate::protocol;
use crate::protocol::ConsumerStep;
use crate::ring::{ConsumerTrace, Ring};

verus! {

/// The consuming endpoint of a channel.
#[verifier::reject_recursive_types(T)]
pub struct Consumer<T> {
    mask: usize,
    /// Own counter, mirrors the one in the ring.
    head: usize,
    /// The producer's counter as last loaded.
    tail_cache: usize,
    ring: Arc<Ring<T>>,
    /// All accesses to the ring so far.
    trace: ConsumerTrace<T>,
    _marker: PhantomData<Cell<()>>,
}

impl<T> Consumer<T> {
    /// The number of slots.
    pub closed spec fn cap(&self) -> nat {
        (self.mask + 1) as nat
    }

    /// The consumer's own counter.
    pub closed spec fn head_counter(&self) -> usize {
        self.head
    }

    /// The producer's counter as this endpoint remembers it.
    pub closed spec fn tail_counter(&self) -> usize {
        self.tail_cache
    }

    /// All accesses to the ring so far.
    pub closed spec fn trace(&self) -> Seq<ConsumerStep<T>> {
        self.trace.steps()
    }

    /// The elements popped so far, in the order in which they came.
    pub open spec fn received(&self) -> Seq<T> {
        protocol::received(self.trace())
    }

    /// The handle fits the ring that it holds, and its trace is that of this ring.
    pub closed spec fn fits(&self) -> bool {
        &&& self.ring.wf()
        &&& self.ring.mask_bits() == self.mask
        &&& self.ring.has_consumer(self.trace)
    }

    /// Every access in the trace was made to the ring that this handle holds.
    pub closed spec fn made(&self) -> bool {
        forall|i: int|
            0 <= i < self.trace().len() ==> self.ring.made_by_consumer(#[trigger] self.trace()[i])
    }

    /// The ring was made with both counters at zero and with every slot vacant.
    pub closed spec fn starts_empty(&self) -> bool {
        self.ring.starts_empty()
    }

    /// What holds of a consumer at any point of a call.
    spec fn coherent(&self) -> bool {
        &&& self.fits()
        &&& self.starts_empty()
        &&& self.made()
        &&& index::is_capacity(self.cap())
        &&& protocol::consumer_obeys(self.cap(), self.trace())
        &&& self.head == index::counter(protocol::released(self.trace()))
        &&& self.tail_cache == protocol::tail_seen(self.trace())
    }

    /// What holds of a consumer between calls: its trace obeys the rules and was made on
    /// a ring that started empty, its counters are those of the trace, and all that was
    /// taken is released.
    pub open spec fn wf(&self) -> bool {
        &&& self.fits()
        &&& self.starts_empty()
        &&& self.made()
        &&& index::is_capacity(self.cap())
        &&& protocol::consumer_obeys(self.cap(), self.trace())
        &&& self.head_counter() == index::counter(self.received().len())
        &&& self.tail_counter() == protocol::tail_seen(self.trace())
        &&& protocol::released(self.trace()) == self.received().len()
    }

    /// The ring looks empty to this endpoint.
    pub open spec fn looks_empty(self) -> bool {
        index::is_empty(self.tail_counter(), self.head_counter())
    }

    /// The number of elements to pop as it looks to this endpoint.
    pub open spec fn available(self) -> int {
        index::distance(self.tail_counter(), self.head_counter())
    }

    /// The ring itself.
    pub(crate) closed spec fn shared(&self) -> Arc<Ring<T>> {
        self.ring
    }

    /// Both handles hold the same ring.
    pub closed spec fn same_ring(self, other: Self) -> bool {
        self.ring == other.ring
    }

    /// Handles of the same ring share it.
    pub(crate) proof fn lemma_same_ring(self, other: Self)
        requires
            self.same_ring(other),
        ensures
            self.shared() == other.shared(),
    {
    }

    /// The producer's counter was loaded, and this is what it read.
    pub closed spec fn tail_was_read(&self, value: usize) -> bool {
        self.ring.tail_was_read(value)
    }

    /// `after` is a later state of this endpoint. It remembers the same counter of the
    /// producer, unless that was loaded anew.
    pub open spec fn reloads_tail(self, after: Self, reloads: bool) -> bool {
        &&& self.same_ring(after)
        &&& after.cap() == self.cap()
        &&& !reloads ==> after.tail_counter() == self.tail_counter()
    }

    /// A slot that was expected to hold an element gave none: it was vacant, or it was
    /// refused.
    pub open spec fn missed(step: ConsumerStep<T>, slot: usize) -> bool {
        step == ConsumerStep::<T>::Take(slot, None) || step == ConsumerStep::<T>::Busy(slot)
    }

    /// What a pop does. The producer's counter is loaded if and only if the ring looks
    /// empty without it. Nothing comes back if the ring looks empty then; otherwise
    /// the next slot is emptied, what it held comes back, and after that the counter
    /// that releases the slot is stored. A slot that was refused or held nothing is not
    /// released. All of this is done to the ring itself.
    pub open spec fn pop_effect(self, after: Self, item: Option<T>) -> bool {
        let empty = index::is_empty(after.tail_counter(), self.head_counter());
        let slot = index::slot_of(self.cap(), self.received().len());
        let loaded = self.trace() + protocol::tail_load(self.looks_empty(), after.tail_counter());
        &&& self.reloads_tail(after, self.looks_empty())
        &&& after.made()
        &&& if empty {
            &&& item is None
            &&& after.trace() =~= loaded
        } else if item is Some {
            after.trace() =~= loaded + seq![
                ConsumerStep::Take(slot, item),
                ConsumerStep::StoreHead(after.head_counter()),
            ]
        } else {
            &&& after.trace().len() == loaded.len() + 1
            &&& after.trace().drop_last() =~= loaded
            &&& Self::missed(after.trace().last(), slot)
        }
        &&& after.received() =~= (if item is Some {
            self.received().push(item->0)
        } else {
            self.received()
        })
        &&& after.head_counter() == index::counter(after.received().len())
    }

    /// What a pop into a slice does. The producer's counter is loaded if and only if
    /// fewer elements than the slice can hold are known of without it. The next slots
    /// are emptied into the front of the slice, in order, and after that the counter
    /// that releases them is stored, once, if there are any. The rest of the slice
    /// stays as it is. As many slots are emptied as elements are known of and fit,
    /// unless one is refused or held nothing: that one is the last. All of this is done
    /// to the ring itself.
    pub open spec fn pop_slice_effect(
        self,
        after: Self,
        out: Seq<T>,
        filled: Seq<T>,
        popped: nat,
    ) -> bool {
        let known = index::distance(after.tail_counter(), self.head_counter());
        let wanted = vstd::math::min(out.len() as int, known);
        let reloads = out.len() > self.available();
        let emptied = self.trace() + protocol::tail_load(reloads, after.tail_counter())
            + protocol::take_steps(
            self.cap(),
            self.received().len(),
            filled.take(popped as int),
        );
        let stored = protocol::head_store(popped > 0, after.head_counter());
        &&& self.reloads_tail(after, reloads)
        &&& after.made()
        &&& popped <= wanted
        &&& filled.len() == out.len()
        &&& filled.skip(popped as int) =~= out.skip(popped as int)
        &&& after.received() =~= self.received() + filled.take(popped as int)
        &&& after.head_counter() == index::counter(self.received().len() + popped)
        &&& if popped < wanted {
            &&& after.trace().len() == emptied.len() + 1 + stored.len()
            &&& after.trace() =~= emptied.push(after.trace()[emptied.len() as int]) + stored
            &&& Self::missed(
                after.trace()[emptied.len() as int],
                index::slot_of(self.cap(), self.received().len() + popped),
            )
        } else {
            after.trace() =~= emptied + stored
        }
    }

    /// The consumer of a new ring.
    pub(crate) fn new(ring: Arc<Ring<T>>, trace: ConsumerTrace<T>) -> (consumer: Self)
        requires
            ring.has_consumer(trace),
            trace.steps() == Seq::<ConsumerStep<T>>::empty(),
            ring.wf(),
            ring.starts_empty(),
            index::is_capacity((ring.mask_bits() + 1) as nat),
        ensures
            consumer.wf(),
            consumer.shared() == ring,
            consumer.cap() == ring.mask_bits() + 1,
            consumer.trace() == Seq::<ConsumerStep<T>>::empty(),
    {
        proof {
            index::lemma_start();
        }
        Consumer {
            mask: ring.mask(),
            head: 0,
            tail_cache: 0,
            ring,
            trace,
            _marker: PhantomData,
        }
    }

    /// Loads the producer's counter.
    fn load_tail(&mut self)
        requires
            old(self).coherent(),
        ensures
            final(self).coherent(),
            final(self).mask == old(self).mask,
            final(self).ring == old(self).ring,
            final(self).head == old(self).head,
            final(self).trace() == old(self).trace().push(
                ConsumerStep::LoadTail(final(self).tail_cache),
            ),
            final(self).received() == old(self).received(),
            protocol::released(final(self).trace()) == protocol::released(
                old(self).trace(),
            ),
    {
        let ghost before = self.trace();
        self.tail_cache = self.ring.load_tail(&mut self.trace);
        proof {
            protocol::lemma_consumer_step(
                self.cap(),
                before,
                ConsumerStep::LoadTail(self.tail_cache),
            );
        }
    }

    /// Empties the slot that lies `offset` past the counter, unless it is refused.
    fn take(&mut self, offset: usize) -> (item: Option<T>)
        requires
            old(self).coherent(),
            protocol::released(old(self).trace()) + offset == old(self).received().len(),
            index::counter(old(self).received().len()) != old(self).tail_cache,
        ensures
            final(self).coherent(),
            final(self).mask == old(self).mask,
            final(self).ring == old(self).ring,
            final(self).head == old(self).head,
            final(self).tail_cache == old(self).tail_cache,
            ({
                let slot = index::slot_of(old(self).cap(), old(self).received().len());
                let step = final(self).trace().last();
                &&& final(self).trace() == old(self).trace().push(step)
                &&& item is Some ==> step == ConsumerStep::Take(slot, item)
                &&& item is None ==> Self::missed(step, slot)
            }),
            final(self).received() == match item {
                Some(taken) => old(self).received().push(taken),
                None => old(self).received(),
            },
            protocol::released(final(self).trace()) == protocol::released(old(self).trace()),
    {
        proof {
            index::lemma_advance(protocol::released(self.trace()), offset);
            index::lemma_wrapped_slot(self.cap(), self.received().len());
        }
        let slot = index::masked(self.head.wrapping_add(offset), self.mask);
        let ghost before = self.trace();
        let result = self.ring.take(slot, &mut self.trace);
        proof {
            protocol::lemma_consumer_step(self.cap(), before, self.trace().last());
            assert(self.trace() =~= before.push(self.trace().last()));
        }
        match result {
            Some(found) => found,
            None => None,
        }
    }

    /// Stores the counter, which releases `count` slots.
    fn release(&mut self, count: usize)
        requires
            old(self).coherent(),
            protocol::released(old(self).trace()) + count == old(self).received().len(),
        ensures
            final(self).wf(),
            final(self).mask == old(self).mask,
            final(self).ring == old(self).ring,
            final(self).head == index::counter(old(self).received().len()),
            final(self).tail_cache == old(self).tail_cache,
            final(self).trace() == old(self).trace().push(
                ConsumerStep::StoreHead(final(self).head),
            ),
            final(self).received() == old(self).received(),
    {
        proof {
            index::lemma_advance(protocol::released(self.trace()), count);
        }
        self.head = self.head.wrapping_add(count);
        proof {
            protocol::lemma_consumer_step(
                self.cap(),
                self.trace(),
                ConsumerStep::StoreHead(self.head),
            );
        }
        self.ring.store_head(self.head, &mut self.trace);
    }

    /// Pops one element, or `None` when the ring is empty.
    ///
    /// The producer's counter is loaded only when the ring looks empty without it.
    /// The slot is emptied before the counter that releases it is stored.
    pub fn pop(&mut self) -> (item: Option<T>)
        requires
            old(self).wf(),
        ensures
            final(self).wf(),
            old(self).pop_effect(*final(self), item),
    {
        if self.head == self.tail_cache {
            self.load_tail();
            if self.head == self.tail_cache {
                return None;
            }
        }
        proof {
            index::lemma_advance(self.received().len(), 1);
        }
        let item = self.take(0);
        if item.is_some() {
            self.release(1);
        }
        item
    }

    /// Copies up to `out.len()` elements into `out`, returning how many were
    /// popped.
    ///
    /// The producer's counter is loaded only when fewer elements are known of. The
    /// whole batch is released with a single store.
    pub fn pop_slice(&mut self, out: &mut [T]) -> (popped: usize) where T: Copy
        requires
            old(self).wf(),
        ensures
            final(self).wf(),
            old(self).pop_slice_effect(*final(self), old(out)@, final(out)@, popped as nat),
    {
        let mut avail = self.tail_cache.wrapping_sub(self.head);
        if avail < out.len() {
            self.load_tail();
            avail = self.tail_cache.wrapping_sub(self.head);
        }
        let n = if out.len() < avail {
            out.len()
        } else {
            avail
        };
        let ghost before = self.trace();
        let ghost start = self.received();
        let ghost tail = self.tail_cache;
        let mut i: usize = 0;
        let mut missed = false;
        while i < n && !missed
            invariant
                i <= n <= out@.len(),
                out@.len() == old(out)@.len(),
                n <= index::distance(self.tail_cache, self.head),
                self.mask == old(self).mask,
                self.ring == old(self).ring,
                self.head == old(self).head,
                self.tail_cache == tail,
                self.coherent(),
                protocol::released(self.trace()) == start.len(),
                self.received() == start + out@.take(i as int),
                out@.skip(i as int) == old(out)@.skip(i as int),
                missed ==> i < n,
                ({
                    let emptied = before + protocol::take_steps(
                        self.cap(),
                        start.len(),
                        out@.take(i as int),
                    );
                    if missed {
                        &&& self.trace() == emptied.push(self.trace().last())
                        &&& Self::missed(
                            self.trace().last(),
                            index::slot_of(self.cap(), start.len() + i as nat),
                        )
                    } else {
                        self.trace() == emptied
                    }
                }),
            decreases
                    n - i,
                    if missed {
                        0int
                    } else {
                        1int
                    },
        {
            proof {
                index::lemma_advance(start.len(), i);
            }
            let ghost so_far = out@;
            match self.take(i) {
                Some(item) => {
                    out[i] = item;
                    proof {
                        assert(out@.take(i + 1) =~= so_far.take(i as int).push(item));
                        assert(out@.skip(i + 1) =~= so_far.skip(i as int).skip(1));
                        assert(old(out)@.skip(i + 1) =~= old(out)@.skip(i as int).skip(1));
                    }
                    i = i + 1;
                },
                None => {
                    missed = true;
                },
            }
        }
        if i > 0 {
            proof {
                index::lemma_advance(start.len(), i);
            }
            self.release(i);
        }
        i
    }

    /// The number of elements available when the producer's counter stands at `tail`.
    pub fn len_at(&self, tail: usize) -> (len: usize)
        ensures
            len == index::distance(tail, self.head_counter()),
    {
        tail.wrapping_sub(self.head)
    }

    /// Whether nothing is available when the producer's counter stands at `tail`.
    pub fn is_empty_at(&self, tail: usize) -> (empty: bool)
        ensures
            empty == index::is_empty(tail, self.head_counter()),
    {
        self.len_at(tail) == 0
    }

    /// Number of elements currently available to pop, with the producer's counter as
    /// it is read now.
    pub fn len(&self) -> (len: usize)
        ensures
            exists|tail: usize| #[trigger]
                self.tail_was_read(tail) && len == index::distance(tail, self.head_counter()),
    {
        let tail = self.ring.peek_tail();
        assert(self.tail_was_read(tail));
        self.len_at(tail)
    }

    /// Whether nothing is currently available to pop, with the producer's counter as it
    /// is read now.
    pub fn is_empty(&self) -> (empty: bool)
        ensures
            exists|tail: usize| #[trigger]
                self.tail_was_read(tail) && empty == index::is_empty(tail, self.head_counter()),
    {
        let tail = self.ring.peek_tail();
        assert(self.tail_was_read(tail));
        self.is_empty_at(tail)
    }

    /// The number of elements that the ring holds at most.
    pub fn capacity(&self) -> (capacity: usize)
        requires
            index::is_capacity(self.cap()),
        ensures
            capacity == self.cap(),
    {
        proof {
            index::lemma_capacity(self.cap());
        }
        self.mask + 1
    }
}

} // verus!
