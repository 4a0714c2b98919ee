//! What an endpoint does to the shared memory, step by step.
//!
//! Each endpoint keeps a ghost trace of its accesses to the ring: the loads of the
//! other end's counter with the value that came back, the accesses to slots, and
//! the stores that publish its own counter. The contracts of the endpoints say
//! which steps a call adds to the trace, and this module says which traces obey
//! the rules of the ring.
use vstd::prelude::*;

#[allow(unused_imports)]
use crate::index;

verus! {

/// An access of the producer to the shared memory.
pub enum ProducerStep<T> {
    /// The consumer's counter was loaded, and this is what it read.
    LoadHead(usize),
    /// An element was written to a slot.
    Write(usize, T),
    /// A slot was to be written to, but it was refused.
    Busy(usize),
    /// The producer's counter was stored, which publishes what was written so far.
    StoreTail(usize),
}

/// An access of the consumer to the shared memory.
pub enum ConsumerStep<T> {
    /// The producer's counter was loaded, and this is what it read.
    LoadTail(usize),
    /// A slot was emptied, and this is what it held.
    Take(usize, Option<T>),
    /// A slot was to be emptied, but it was refused.
    Busy(usize),
    /// The consumer's counter was stored, which releases what was taken so far.
    StoreHead(usize),
}

/// The elements that a producer has written, oldest first.
pub open spec fn sent<T>(trace: Seq<ProducerStep<T>>) -> Seq<T>
    decreases trace.len(),
{
    if trace.len() == 0 {
        Seq::empty()
    } else {
        match trace.last() {
            ProducerStep::Write(_, item) => sent(trace.drop_last()).push(item),
            _ => sent(trace.drop_last()),
        }
    }
}

/// How many elements a producer has published.
pub open spec fn published<T>(trace: Seq<ProducerStep<T>>) -> nat
    decreases trace.len(),
{
    if trace.len() == 0 {
        0
    } else {
        match trace.last() {
            ProducerStep::StoreTail(_) => sent(trace.drop_last()).len(),
            _ => published(trace.drop_last()),
        }
    }
}

/// The producer's counter as it was last stored; a new ring starts at zero.
pub open spec fn tail_stored<T>(trace: Seq<ProducerStep<T>>) -> usize
    decreases trace.len(),
{
    if trace.len() == 0 {
        0
    } else {
        match trace.last() {
            ProducerStep::StoreTail(value) => value,
            _ => tail_stored(trace.drop_last()),
        }
    }
}

/// The consumer's counter as a producer last loaded it; a new ring starts at zero.
pub open spec fn head_seen<T>(trace: Seq<ProducerStep<T>>) -> usize
    decreases trace.len(),
{
    if trace.len() == 0 {
        0
    } else {
        match trace.last() {
            ProducerStep::LoadHead(value) => value,
            _ => head_seen(trace.drop_last()),
        }
    }
}

/// The elements that a consumer has taken, in the order in which it took them.
pub open spec fn received<T>(trace: Seq<ConsumerStep<T>>) -> Seq<T>
    decreases trace.len(),
{
    if trace.len() == 0 {
        Seq::empty()
    } else {
        match trace.last() {
            ConsumerStep::Take(_, Some(item)) => received(trace.drop_last()).push(item),
            _ => received(trace.drop_last()),
        }
    }
}

/// How many elements a consumer has released.
pub open spec fn released<T>(trace: Seq<ConsumerStep<T>>) -> nat
    decreases trace.len(),
{
    if trace.len() == 0 {
        0
    } else {
        match trace.last() {
            ConsumerStep::StoreHead(_) => received(trace.drop_last()).len(),
            _ => released(trace.drop_last()),
        }
    }
}

/// The consumer's counter as it was last stored; a new ring starts at zero.
pub open spec fn head_stored<T>(trace: Seq<ConsumerStep<T>>) -> usize
    decreases trace.len(),
{
    if trace.len() == 0 {
        0
    } else {
        match trace.last() {
            ConsumerStep::StoreHead(value) => value,
            _ => head_stored(trace.drop_last()),
        }
    }
}

/// The producer's counter as a consumer last loaded it; a new ring starts at zero.
pub open spec fn tail_seen<T>(trace: Seq<ConsumerStep<T>>) -> usize
    decreases trace.len(),
{
    if trace.len() == 0 {
        0
    } else {
        match trace.last() {
            ConsumerStep::LoadTail(value) => value,
            _ => tail_seen(trace.drop_last()),
        }
    }
}

/// After these accesses a producer on a ring with `capacity` slots may write to this
/// slot: it is the next, and the ring does not look full.
pub open spec fn may_write<T>(capacity: nat, trace: Seq<ProducerStep<T>>, slot: usize) -> bool {
    &&& slot == index::slot_of(capacity, sent(trace).len())
    &&& !index::is_full(capacity, index::counter(sent(trace).len()), head_seen(trace))
}

/// After these accesses a consumer on a ring with `capacity` slots may empty this slot:
/// it is the next, and the ring does not look empty.
pub open spec fn may_take<T>(capacity: nat, trace: Seq<ConsumerStep<T>>, slot: usize) -> bool {
    &&& slot == index::slot_of(capacity, received(trace).len())
    &&& index::counter(received(trace).len()) != tail_seen(trace)
}

/// The rules for a producer on a ring with `capacity` slots. Elements go to
/// consecutive slots, none is written while the ring looks full, and what is stored
/// is the counter of all that was written.
pub open spec fn producer_obeys<T>(capacity: nat, trace: Seq<ProducerStep<T>>) -> bool
    decreases trace.len(),
{
    trace.len() == 0 || {
        let before = trace.drop_last();
        &&& producer_obeys(capacity, before)
        &&& match trace.last() {
            ProducerStep::LoadHead(_) => true,
            ProducerStep::Write(slot, _) => may_write(capacity, before, slot),
            ProducerStep::Busy(slot) => may_write(capacity, before, slot),
            ProducerStep::StoreTail(value) => value == index::counter(sent(before).len()),
        }
    }
}

/// The rules for a consumer on a ring with `capacity` slots. Elements come from
/// consecutive slots, none is taken while the ring looks empty, and what is stored
/// is the counter of all that was taken.
pub open spec fn consumer_obeys<T>(capacity: nat, trace: Seq<ConsumerStep<T>>) -> bool
    decreases trace.len(),
{
    trace.len() == 0 || {
        let before = trace.drop_last();
        &&& consumer_obeys(capacity, before)
        &&& match trace.last() {
            ConsumerStep::LoadTail(_) => true,
            ConsumerStep::Take(slot, _) => may_take(capacity, before, slot),
            ConsumerStep::Busy(slot) => may_take(capacity, before, slot),
            ConsumerStep::StoreHead(value) => value == index::counter(received(before).len()),
        }
    }
}

/// The step that loads the consumer's counter, where one is made.
pub open spec fn head_load<T>(made: bool, value: usize) -> Seq<ProducerStep<T>> {
    if made {
        seq![ProducerStep::LoadHead(value)]
    } else {
        Seq::empty()
    }
}

/// The step that stores the producer's counter, where one is made.
pub open spec fn tail_store<T>(made: bool, value: usize) -> Seq<ProducerStep<T>> {
    if made {
        seq![ProducerStep::StoreTail(value)]
    } else {
        Seq::empty()
    }
}

/// The step that loads the producer's counter, where one is made.
pub open spec fn tail_load<T>(made: bool, value: usize) -> Seq<ConsumerStep<T>> {
    if made {
        seq![ConsumerStep::LoadTail(value)]
    } else {
        Seq::empty()
    }
}

/// The step that stores the consumer's counter, where one is made.
pub open spec fn head_store<T>(made: bool, value: usize) -> Seq<ConsumerStep<T>> {
    if made {
        seq![ConsumerStep::StoreHead(value)]
    } else {
        Seq::empty()
    }
}

/// The steps that write `items` to consecutive slots, the first at `position`.
pub open spec fn write_steps<T>(capacity: nat, position: nat, items: Seq<T>) -> Seq<
    ProducerStep<T>,
> {
    Seq::new(
        items.len(),
        |i: int|
            ProducerStep::Write(
                index::slot_of(capacity, (position + i) as nat),
                items[i],
            ),
    )
}

/// The steps that take `items` from consecutive slots, the first at `position`.
pub open spec fn take_steps<T>(capacity: nat, position: nat, items: Seq<T>) -> Seq<
    ConsumerStep<T>,
> {
    Seq::new(
        items.len(),
        |i: int|
            ConsumerStep::Take(
                index::slot_of(capacity, (position + i) as nat),
                Some(items[i]),
            ),
    )
}

/// The step at which a producer finds its next slot refused, where it does.
pub open spec fn write_refused<T>(refused: bool, capacity: nat, position: nat) -> Seq<
    ProducerStep<T>,
> {
    if refused {
        seq![ProducerStep::Busy(index::slot_of(capacity, position))]
    } else {
        Seq::empty()
    }
}

/// What one more step does to all that is read off a producer's trace.
pub proof fn lemma_producer_step<T>(
    capacity: nat,
    trace: Seq<ProducerStep<T>>,
    step: ProducerStep<T>,
)
    ensures
        producer_obeys(capacity, trace.push(step)) == (producer_obeys(capacity, trace)
            && match step {
            ProducerStep::LoadHead(_) => true,
            ProducerStep::Write(slot, _) => may_write(capacity, trace, slot),
            ProducerStep::Busy(slot) => may_write(capacity, trace, slot),
            ProducerStep::StoreTail(value) => value == index::counter(sent(trace).len()),
        }),
        sent(trace.push(step)) == match step {
            ProducerStep::Write(_, item) => sent(trace).push(item),
            _ => sent(trace),
        },
        published(trace.push(step)) == match step {
            ProducerStep::StoreTail(_) => sent(trace).len(),
            _ => published(trace),
        },
        head_seen(trace.push(step)) == match step {
            ProducerStep::LoadHead(value) => value,
            _ => head_seen(trace),
        },
{
    assert(trace.push(step).drop_last() =~= trace);
}

/// What one more step does to all that is read off a consumer's trace.
pub proof fn lemma_consumer_step<T>(
    capacity: nat,
    trace: Seq<ConsumerStep<T>>,
    step: ConsumerStep<T>,
)
    ensures
        consumer_obeys(capacity, trace.push(step)) == (consumer_obeys(capacity, trace)
            && match step {
            ConsumerStep::LoadTail(_) => true,
            ConsumerStep::Take(slot, _) => may_take(capacity, trace, slot),
            ConsumerStep::Busy(slot) => may_take(capacity, trace, slot),
            ConsumerStep::StoreHead(value) => value == index::counter(received(trace).len()),
        }),
        received(trace.push(step)) == match step {
            ConsumerStep::Take(_, Some(item)) => received(trace).push(item),
            _ => received(trace),
        },
        released(trace.push(step)) == match step {
            ConsumerStep::StoreHead(_) => received(trace).len(),
            _ => released(trace),
        },
        tail_seen(trace.push(step)) == match step {
            ConsumerStep::LoadTail(value) => value,
            _ => tail_seen(trace),
        },
{
    assert(trace.push(step).drop_last() =~= trace);
}

} // verus!
