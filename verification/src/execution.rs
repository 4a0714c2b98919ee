//! Runs of the two endpoints on one ring.
//!
//! A run is the sequence of all accesses to the shared memory, in the order in which
//! they take effect. The memory decides what a load of a counter and an access to a
//! slot read; the endpoints decide everything else. An access to a slot lasts: it
//! begins when the endpoint enters the slot and ends when its effect is there.
use vstd::prelude::*;

#[allow(unused_imports)]
use crate::index;
#[allow(unused_imports)]
use crate::protocol;
#[allow(unused_imports)]
use crate::protocol::{ConsumerStep, ProducerStep};

verus! {

/// An access to the shared memory in a run, or the beginning of one.
pub enum Event<T> {
    /// The producer loads the consumer's counter, which stands for `count` elements.
    LoadHead { count: nat },
    /// The producer looks at the consumer's counter to tell how many are queued.
    PeekHead { count: nat },
    /// The producer enters a slot.
    EnterToWrite { slot: usize },
    /// The producer leaves the slot with an element in it.
    Write { slot: usize, item: T },
    /// The producer is refused a slot.
    RefuseWrite { slot: usize },
    /// The producer stores its counter.
    StoreTail { value: usize },
    /// The consumer loads the producer's counter, which stands for `count` elements.
    LoadTail { count: nat },
    /// The consumer looks at the producer's counter to tell how many are available.
    PeekTail { count: nat },
    /// The consumer enters a slot.
    EnterToTake { slot: usize },
    /// The consumer leaves the slot vacant, with what it held.
    Take { slot: usize, found: Option<T> },
    /// The consumer is refused a slot.
    RefuseTake { slot: usize },
    /// The consumer stores its counter.
    StoreHead { value: usize },
}

/// The producer's part of a run.
pub open spec fn producer_trace<T>(run: Seq<Event<T>>) -> Seq<ProducerStep<T>>
    decreases run.len(),
{
    if run.len() == 0 {
        Seq::empty()
    } else {
        let before = producer_trace(run.drop_last());
        match run.last() {
            Event::LoadHead { count } => before.push(ProducerStep::LoadHead(index::counter(count))),
            Event::Write { slot, item } => before.push(ProducerStep::Write(slot, item)),
            Event::RefuseWrite { slot } => before.push(ProducerStep::Busy(slot)),
            Event::StoreTail { value } => before.push(ProducerStep::StoreTail(value)),
            _ => before,
        }
    }
}

/// The consumer's part of a run.
pub open spec fn consumer_trace<T>(run: Seq<Event<T>>) -> Seq<ConsumerStep<T>>
    decreases run.len(),
{
    if run.len() == 0 {
        Seq::empty()
    } else {
        let before = consumer_trace(run.drop_last());
        match run.last() {
            Event::LoadTail { count } => before.push(ConsumerStep::LoadTail(index::counter(count))),
            Event::Take { slot, found } => before.push(ConsumerStep::Take(slot, found)),
            Event::RefuseTake { slot } => before.push(ConsumerStep::Busy(slot)),
            Event::StoreHead { value } => before.push(ConsumerStep::StoreHead(value)),
            _ => before,
        }
    }
}

/// The slot that the producer is inside of.
pub open spec fn writing<T>(run: Seq<Event<T>>) -> Option<usize>
    decreases run.len(),
{
    if run.len() == 0 {
        None
    } else {
        match run.last() {
            Event::EnterToWrite { slot } => Some(slot),
            Event::Write { .. } => None,
            _ => writing(run.drop_last()),
        }
    }
}

/// The slot that the consumer is inside of.
pub open spec fn taking<T>(run: Seq<Event<T>>) -> Option<usize>
    decreases run.len(),
{
    if run.len() == 0 {
        None
    } else {
        match run.last() {
            Event::EnterToTake { slot } => Some(slot),
            Event::Take { .. } => None,
            _ => taking(run.drop_last()),
        }
    }
}

/// What the slots hold after a run; all are vacant at first.
pub open spec fn slots<T>(capacity: nat, run: Seq<Event<T>>) -> Seq<Option<T>>
    decreases run.len(),
{
    if run.len() == 0 {
        Seq::new(capacity, |i: int| None)
    } else {
        let before = slots(capacity, run.drop_last());
        match run.last() {
            Event::Write { slot, item } => before.update(slot as int, Some(item)),
            Event::Take { slot, .. } => before.update(slot as int, None),
            _ => before,
        }
    }
}

/// The elements sent in a run, oldest first.
pub open spec fn sent<T>(run: Seq<Event<T>>) -> Seq<T> {
    protocol::sent(producer_trace(run))
}

/// The elements received in a run, in the order in which they came.
pub open spec fn received<T>(run: Seq<Event<T>>) -> Seq<T> {
    protocol::received(consumer_trace(run))
}

/// How many elements the producer's counter in the ring stands for.
pub open spec fn published<T>(run: Seq<Event<T>>) -> nat {
    protocol::published(producer_trace(run))
}

/// How many elements the consumer's counter in the ring stands for.
pub open spec fn released<T>(run: Seq<Event<T>>) -> nat {
    protocol::released(consumer_trace(run))
}

/// The count behind the producer's last load of the consumer's counter.
pub open spec fn head_known<T>(run: Seq<Event<T>>) -> nat
    decreases run.len(),
{
    if run.len() == 0 {
        0
    } else {
        match run.last() {
            Event::LoadHead { count } => count,
            _ => head_known(run.drop_last()),
        }
    }
}

/// The count behind the consumer's last load of the producer's counter.
pub open spec fn tail_known<T>(run: Seq<Event<T>>) -> nat
    decreases run.len(),
{
    if run.len() == 0 {
        0
    } else {
        match run.last() {
            Event::LoadTail { count } => count,
            _ => tail_known(run.drop_last()),
        }
    }
}

/// The count behind the last read of the consumer's counter by the producer, be it a
/// load or a look.
pub open spec fn head_read<T>(run: Seq<Event<T>>) -> nat
    decreases run.len(),
{
    if run.len() == 0 {
        0
    } else {
        match run.last() {
            Event::LoadHead { count } => count,
            Event::PeekHead { count } => count,
            _ => head_read(run.drop_last()),
        }
    }
}

/// The count behind the last read of the producer's counter by the consumer, be it a
/// load or a look.
pub open spec fn tail_read<T>(run: Seq<Event<T>>) -> nat
    decreases run.len(),
{
    if run.len() == 0 {
        0
    } else {
        match run.last() {
            Event::LoadTail { count } => count,
            Event::PeekTail { count } => count,
            _ => tail_read(run.drop_last()),
        }
    }
}

/// The memory bears out what was read in a run. A read may lag behind the counter, but
/// it never falls back behind an earlier read by the same end, as the order of the
/// stores to one counter is the same for all. A slot is refused if and only if the
/// other end is inside of it. It holds what was last put there: the counters are stored
/// with release and loaded with acquire, so whoever reads a counter sees the accesses
/// to slots before it was stored.
pub open spec fn memory_agrees<T>(capacity: nat, run: Seq<Event<T>>) -> bool
    decreases run.len(),
{
    run.len() == 0 || {
        let before = run.drop_last();
        &&& memory_agrees(capacity, before)
        &&& match run.last() {
            Event::LoadHead { count } => head_read(before) <= count <= released(before),
            Event::PeekHead { count } => head_read(before) <= count <= released(before),
            Event::EnterToWrite { slot } => taking(before) != Some(slot),
            Event::RefuseWrite { slot } => taking(before) == Some(slot),
            Event::LoadTail { count } => tail_read(before) <= count <= published(before),
            Event::PeekTail { count } => tail_read(before) <= count <= published(before),
            Event::EnterToTake { slot } => writing(before) != Some(slot),
            Event::RefuseTake { slot } => writing(before) == Some(slot),
            Event::Take { slot, found } => found == slots(capacity, before)[slot as int],
            _ => true,
        }
    }
}

/// The endpoints enter only slots that they may access, one at a time, and their
/// accesses take effect in the slots that they have entered.
pub open spec fn slots_are_entered<T>(capacity: nat, run: Seq<Event<T>>) -> bool
    decreases run.len(),
{
    run.len() == 0 || {
        let before = run.drop_last();
        &&& slots_are_entered(capacity, before)
        &&& match run.last() {
            Event::EnterToWrite { slot } => writing(before) is None && protocol::may_write(
                capacity,
                producer_trace(before),
                slot,
            ),
            Event::Write { slot, .. } => writing(before) == Some(slot),
            Event::EnterToTake { slot } => taking(before) is None && protocol::may_take(
                capacity,
                consumer_trace(before),
                slot,
            ),
            Event::Take { slot, .. } => taking(before) == Some(slot),
            _ => true,
        }
    }
}

/// A run that the endpoints and the memory can have together.
pub open spec fn is_run<T>(capacity: nat, run: Seq<Event<T>>) -> bool {
    &&& index::is_capacity(capacity)
    &&& protocol::producer_obeys(capacity, producer_trace(run))
    &&& protocol::consumer_obeys(capacity, consumer_trace(run))
    &&& slots_are_entered(capacity, run)
    &&& memory_agrees(capacity, run)
}

/// What holds after every run. What each side knows of the other lags behind it, and
/// the producer is at most one lap ahead. What was received is the beginning of what
/// was sent, and the slots hold exactly the rest. Who is inside of a slot is where the
/// next element goes, or comes from.
pub open spec fn balanced<T>(capacity: nat, run: Seq<Event<T>>) -> bool {
    let s = sent(run);
    let r = received(run);
    let held = slots(capacity, run);
    &&& head_known(run) <= head_read(run) <= released(run) <= r.len()
    &&& r.len() <= tail_known(run) <= tail_read(run) <= published(run) <= s.len()
    &&& s.len() <= head_known(run) + capacity
    &&& protocol::head_seen(producer_trace(run)) == index::counter(head_known(run))
    &&& protocol::tail_seen(consumer_trace(run)) == index::counter(tail_known(run))
    &&& r == s.take(r.len() as int)
    &&& held.len() == capacity
    &&& forall|k: nat|
        r.len() <= k < s.len() ==> held[(#[trigger] index::slot_of(capacity, k)) as int] == Some(
            s[k as int],
        )
    &&& forall|k: nat|
        s.len() <= k < r.len() + capacity ==> held[(#[trigger] index::slot_of(
            capacity,
            k,
        )) as int] == None::<T>
    &&& writing(run) is Some ==> writing(run) == Some(index::slot_of(capacity, s.len()))
        && s.len() < head_known(run) + capacity
    &&& taking(run) is Some ==> taking(run) == Some(index::slot_of(capacity, r.len())) && r.len()
        < tail_known(run)
}

/// A producer that may write has a vacant slot before it, which the consumer is not
/// inside of.
pub proof fn lemma_room<T>(capacity: nat, run: Seq<Event<T>>, slot: usize)
    requires
        index::is_capacity(capacity),
        balanced(capacity, run),
        protocol::may_write(capacity, producer_trace(run), slot),
    ensures
        sent(run).len() < head_known(run) + capacity,
        slot < capacity,
        slots(capacity, run)[slot as int] == None::<T>,
        taking(run) != Some(slot),
{
    index::lemma_capacity(capacity);
    index::lemma_distance(sent(run).len(), head_known(run));
    index::lemma_slot_bound(capacity, sent(run).len());
    if taking(run) is Some {
        index::lemma_slots_differ(capacity, received(run).len(), sent(run).len());
    }
}

/// A consumer that may take has the oldest queued element before it, in a slot that the
/// producer is not inside of.
pub proof fn lemma_queued<T>(capacity: nat, run: Seq<Event<T>>, slot: usize)
    requires
        index::is_capacity(capacity),
        balanced(capacity, run),
        protocol::may_take(capacity, consumer_trace(run), slot),
    ensures
        received(run).len() < tail_known(run),
        slot < capacity,
        slots(capacity, run)[slot as int] == Some(sent(run)[received(run).len() as int]),
        writing(run) != Some(slot),
{
    index::lemma_slot_bound(capacity, received(run).len());
    if writing(run) is Some {
        index::lemma_slots_differ(capacity, received(run).len(), sent(run).len());
    }
}

/// A write keeps the balance.
proof fn lemma_write<T>(capacity: nat, run: Seq<Event<T>>, slot: usize, item: T)
    requires
        is_run(capacity, run.push(Event::Write { slot, item })),
        balanced(capacity, run),
    ensures
        balanced(capacity, run.push(Event::Write { slot, item })),
{
    let next = run.push(Event::Write { slot, item });
    assert(next.drop_last() =~= run);
    protocol::lemma_producer_step(capacity, producer_trace(run), ProducerStep::Write(slot, item));
    lemma_room(capacity, run, slot);
    let s = sent(run);
    let r = received(run);
    let held = slots(capacity, next);
    assert(sent(next) =~= s.push(item));
    assert(received(next) =~= sent(next).take(r.len() as int));
    assert forall|k: nat| r.len() <= k < s.len() + 1 implies held[(#[trigger] index::slot_of(
        capacity,
        k,
    )) as int] == Some(sent(next)[k as int]) by {
        if k < s.len() {
            index::lemma_slots_differ(capacity, k, s.len());
        }
    }
    assert forall|k: nat| s.len() + 1 <= k < r.len() + capacity implies held[(
    #[trigger] index::slot_of(capacity, k)) as int] == None::<T> by {
        index::lemma_slots_differ(capacity, s.len(), k);
    }
}

/// A take keeps the balance.
proof fn lemma_take<T>(capacity: nat, run: Seq<Event<T>>, slot: usize, found: Option<T>)
    requires
        is_run(capacity, run.push(Event::Take { slot, found })),
        balanced(capacity, run),
    ensures
        balanced(capacity, run.push(Event::Take { slot, found })),
{
    let next = run.push(Event::Take { slot, found });
    assert(next.drop_last() =~= run);
    protocol::lemma_consumer_step(capacity, consumer_trace(run), ConsumerStep::Take(slot, found));
    lemma_queued(capacity, run, slot);
    let s = sent(run);
    let r = received(run);
    let held = slots(capacity, next);
    assert(received(next) =~= s.take((r.len() + 1) as int));
    assert forall|k: nat| r.len() + 1 <= k < s.len() implies held[(#[trigger] index::slot_of(
        capacity,
        k,
    )) as int] == Some(s[k as int]) by {
        index::lemma_slots_differ(capacity, r.len(), k);
    }
    assert forall|k: nat| s.len() <= k < r.len() + 1 + capacity implies held[(
    #[trigger] index::slot_of(capacity, k)) as int] == None::<T> by {
        if k == r.len() + capacity {
            index::lemma_next_lap(capacity, r.len());
        } else {
            index::lemma_slots_differ(capacity, r.len(), k);
        }
    }
}

/// The bookkeeping balances after every run.
pub proof fn lemma_balanced<T>(capacity: nat, run: Seq<Event<T>>)
    requires
        is_run(capacity, run),
    ensures
        balanced(capacity, run),
    decreases run.len(),
{
    if run.len() == 0 {
        index::lemma_capacity(capacity);
        assert forall|k: nat| slots(capacity, run)[(#[trigger] index::slot_of(
            capacity,
            k,
        )) as int] == None::<T> by {
            index::lemma_slot_bound(capacity, k);
        }
        assert(received(run) =~= sent(run).take(0));
    } else {
        let before = run.drop_last();
        assert(run =~= before.push(run.last()));
        let pt = producer_trace(before);
        let ct = consumer_trace(before);
        match run.last() {
            Event::LoadHead { count } => {
                protocol::lemma_producer_step(
                    capacity,
                    pt,
                    ProducerStep::LoadHead(index::counter(count)),
                );
                lemma_balanced(capacity, before);
            },
            Event::EnterToWrite { slot } => {
                lemma_balanced(capacity, before);
                lemma_room(capacity, before, slot);
            },
            Event::Write { slot, item } => {
                protocol::lemma_producer_step(capacity, pt, ProducerStep::Write(slot, item));
                lemma_balanced(capacity, before);
                lemma_write(capacity, before, slot, item);
            },
            Event::RefuseWrite { slot } => {
                protocol::lemma_producer_step(capacity, pt, ProducerStep::Busy(slot));
                lemma_balanced(capacity, before);
            },
            Event::StoreTail { value } => {
                protocol::lemma_producer_step(capacity, pt, ProducerStep::StoreTail(value));
                lemma_balanced(capacity, before);
            },
            Event::LoadTail { count } => {
                protocol::lemma_consumer_step(
                    capacity,
                    ct,
                    ConsumerStep::LoadTail(index::counter(count)),
                );
                lemma_balanced(capacity, before);
            },
            Event::EnterToTake { slot } => {
                lemma_balanced(capacity, before);
                lemma_queued(capacity, before, slot);
            },
            Event::Take { slot, found } => {
                protocol::lemma_consumer_step(capacity, ct, ConsumerStep::Take(slot, found));
                lemma_balanced(capacity, before);
                lemma_take(capacity, before, slot, found);
            },
            Event::RefuseTake { slot } => {
                protocol::lemma_consumer_step(capacity, ct, ConsumerStep::Busy(slot));
                lemma_balanced(capacity, before);
            },
            Event::StoreHead { value } => {
                protocol::lemma_consumer_step(capacity, ct, ConsumerStep::StoreHead(value));
                lemma_balanced(capacity, before);
            },
            Event::PeekHead { .. } => {
                lemma_balanced(capacity, before);
            },
            Event::PeekTail { .. } => {
                lemma_balanced(capacity, before);
            },
        }
    }
}

} // verus!
