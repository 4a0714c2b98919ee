//! What the ring guarantees, whatever the interleaving of its two endpoints.
//!
//! The laws quantify over runs: all accesses to the shared memory in the order in
//! which they take effect. The part that an endpoint has in a run is its trace, so a
//! law speaks of the very calls whose contracts extend that trace.
use vstd::prelude::*;

#[allow(unused_imports)]
use crate::channel;
#[allow(unused_imports)]
use crate::consumer::Consumer;
#[allow(unused_imports)]
use crate::execution;
#[allow(unused_imports)]
use crate::execution::Event;
#[allow(unused_imports)]
use crate::index;
#[allow(unused_imports)]
use crate::producer::Producer;
#[allow(unused_imports)]
use crate::protocol;
#[allow(unused_imports)]
use crate::protocol::{ConsumerStep, ProducerStep};

verus! {

/// The two endpoints took part in this run, nobody else did, and both are at rest.
pub open spec fn took_part<T>(
    producer: Producer<T>,
    consumer: Consumer<T>,
    run: Seq<Event<T>>,
) -> bool {
    &&& channel::connected(producer, consumer)
    &&& producer.wf()
    &&& consumer.wf()
    &&& producer.cap() == consumer.cap()
    &&& producer.trace() == execution::producer_trace(run)
    &&& consumer.trace() == execution::consumer_trace(run)
    &&& execution::is_run(producer.cap(), run)
    &&& execution::writing(run) is None
    &&& execution::taking(run) is None
}

/// Everything pushed comes out at most once and in order: what was popped is the
/// beginning of what was pushed. No more than the capacity is under way, and once
/// as much was popped as was pushed, it is the same.
pub proof fn elements_arrive_once_and_in_order<T>(
    producer: Producer<T>,
    consumer: Consumer<T>,
    run: Seq<Event<T>>,
)
    requires
        took_part(producer, consumer, run),
    ensures
        consumer.received().len() <= producer.sent().len() <= consumer.received().len()
            + producer.cap(),
        consumer.received() == producer.sent().take(consumer.received().len() as int),
        consumer.received().len() == producer.sent().len() ==> consumer.received()
            == producer.sent(),
{
    execution::lemma_balanced(producer.cap(), run);
    if consumer.received().len() == producer.sent().len() {
        assert(producer.sent().take(producer.sent().len() as int) =~= producer.sent());
    }
}

/// The same holds in the middle of calls: at every point of a run, what was taken
/// from slots is the beginning of what was written to them.
pub proof fn order_holds_in_the_middle_of_calls<T>(capacity: nat, run: Seq<Event<T>>)
    requires
        execution::is_run(capacity, run),
    ensures
        execution::received(run) == execution::sent(run).take(
            execution::received(run).len() as int,
        ),
        execution::received(run).len() <= execution::published(run)
            <= execution::sent(run).len(),
        execution::sent(run).len() <= execution::released(run) + capacity,
{
    execution::lemma_balanced(capacity, run);
}

/// A beginning of a run is a run.
pub proof fn beginnings_are_runs<T>(capacity: nat, run: Seq<Event<T>>, len: nat)
    requires
        execution::is_run(capacity, run),
        len <= run.len(),
    ensures
        execution::is_run(capacity, run.take(len as int)),
    decreases run.len(),
{
    if len == run.len() {
        assert(run.take(len as int) =~= run);
    } else {
        let before = run.drop_last();
        let pt = execution::producer_trace(before);
        let ct = execution::consumer_trace(before);
        let producer = execution::producer_trace(run);
        let consumer = execution::consumer_trace(run);
        if producer != pt {
            assert(producer.drop_last() =~= pt);
        }
        if consumer != ct {
            assert(consumer.drop_last() =~= ct);
        }
        beginnings_are_runs(capacity, before, len);
        assert(before.take(len as int) =~= run.take(len as int));
    }
}

/// Whenever the consumer empties a slot, the slot holds the oldest element that was
/// not yet received.
pub proof fn a_take_finds_the_next_element<T>(
    capacity: nat,
    run: Seq<Event<T>>,
    slot: usize,
    found: Option<T>,
)
    requires
        execution::is_run(capacity, run.push(Event::Take { slot, found })),
    ensures
        execution::received(run).len() < execution::published(run),
        found == Some(execution::sent(run)[execution::received(run).len() as int]),
{
    let next = run.push(Event::Take { slot, found });
    assert(next.drop_last() =~= run);
    beginnings_are_runs(capacity, next, run.len());
    assert(next.take(run.len() as int) =~= run);
    execution::lemma_balanced(capacity, run);
    protocol::lemma_consumer_step(
        capacity,
        execution::consumer_trace(run),
        ConsumerStep::Take(slot, found),
    );
    execution::lemma_queued(capacity, run, slot);
}

/// Whenever the producer writes to a slot, the slot is vacant: no element is ever
/// overwritten.
pub proof fn a_write_finds_the_slot_vacant<T>(
    capacity: nat,
    run: Seq<Event<T>>,
    slot: usize,
    item: T,
)
    requires
        execution::is_run(capacity, run.push(Event::Write { slot, item })),
    ensures
        slot < capacity,
        execution::slots(capacity, run)[slot as int] == None::<T>,
{
    let next = run.push(Event::Write { slot, item });
    assert(next.drop_last() =~= run);
    beginnings_are_runs(capacity, next, run.len());
    assert(next.take(run.len() as int) =~= run);
    execution::lemma_balanced(capacity, run);
    protocol::lemma_producer_step(
        capacity,
        execution::producer_trace(run),
        ProducerStep::Write(slot, item),
    );
    execution::lemma_room(capacity, run, slot);
}

/// The endpoints are never inside of the same slot, however long they stay.
pub proof fn endpoints_use_different_slots<T>(capacity: nat, run: Seq<Event<T>>)
    requires
        execution::is_run(capacity, run),
    ensures
        execution::writing(run) is Some && execution::taking(run) is Some
            ==> execution::writing(run) != execution::taking(run),
{
    execution::lemma_balanced(capacity, run);
    if execution::writing(run) is Some && execution::taking(run) is Some {
        index::lemma_slots_differ(
            capacity,
            execution::received(run).len(),
            execution::sent(run).len(),
        );
    }
}

/// No access to a slot is ever refused, and no slot that is emptied is found vacant.
pub proof fn no_access_fails<T>(capacity: nat, run: Seq<Event<T>>)
    requires
        execution::is_run(capacity, run),
    ensures
        forall|i: int|
            0 <= i < execution::producer_trace(run).len() ==> !(
            #[trigger] execution::producer_trace(run)[i] is Busy),
        forall|i: int|
            0 <= i < execution::consumer_trace(run).len() ==> succeeds(
                #[trigger] execution::consumer_trace(run)[i],
            ),
    decreases run.len(),
{
    if run.len() > 0 {
        let before = run.drop_last();
        assert(run =~= before.push(run.last()));
        beginnings_are_runs(capacity, run, (run.len() - 1) as nat);
        assert(run.take(run.len() - 1) =~= before);
        no_access_fails(capacity, before);
        execution::lemma_balanced(capacity, before);
        let pt = execution::producer_trace(before);
        let ct = execution::consumer_trace(before);
        match run.last() {
            Event::RefuseWrite { slot } => {
                protocol::lemma_producer_step(capacity, pt, ProducerStep::Busy(slot));
                execution::lemma_room(capacity, before, slot);
            },
            Event::RefuseTake { slot } => {
                protocol::lemma_consumer_step(capacity, ct, ConsumerStep::Busy(slot));
                execution::lemma_queued(capacity, before, slot);
            },
            Event::Take { slot, found } => {
                a_take_finds_the_next_element(capacity, before, slot, found);
            },
            _ => {},
        }
        assert forall|i: int| 0 <= i < execution::producer_trace(run).len() implies !(
        #[trigger] execution::producer_trace(run)[i] is Busy) by {
            if i < pt.len() {
                assert(execution::producer_trace(run)[i] == pt[i]);
            }
        }
        assert forall|i: int| 0 <= i < execution::consumer_trace(run).len() implies succeeds(
            #[trigger] execution::consumer_trace(run)[i],
        ) by {
            if i < ct.len() {
                assert(execution::consumer_trace(run)[i] == ct[i]);
            }
        }
    }
}

/// Where this step is an access to a slot, it gave an element.
pub open spec fn succeeds<T>(step: ConsumerStep<T>) -> bool {
    match step {
        ConsumerStep::Take(_, found) => found is Some,
        ConsumerStep::Busy(_) => false,
        _ => true,
    }
}

/// This access of the producer is to no slot, or to one of the ring.
pub open spec fn writes_within<T>(capacity: nat, step: ProducerStep<T>) -> bool {
    match step {
        ProducerStep::Write(slot, _) => slot < capacity,
        ProducerStep::Busy(slot) => slot < capacity,
        _ => true,
    }
}

/// This access of the consumer is to no slot, or to one of the ring.
pub open spec fn takes_within<T>(capacity: nat, step: ConsumerStep<T>) -> bool {
    match step {
        ConsumerStep::Take(slot, _) => slot < capacity,
        ConsumerStep::Busy(slot) => slot < capacity,
        _ => true,
    }
}

/// Only slots of the ring are accessed, after any number of elements, also where the
/// counters wrap.
pub proof fn slots_are_within_the_ring<T>(capacity: nat, run: Seq<Event<T>>)
    requires
        execution::is_run(capacity, run),
    ensures
        forall|i: int|
            0 <= i < execution::producer_trace(run).len() ==> writes_within(
                capacity,
                #[trigger] execution::producer_trace(run)[i],
            ),
        forall|i: int|
            0 <= i < execution::consumer_trace(run).len() ==> takes_within(
                capacity,
                #[trigger] execution::consumer_trace(run)[i],
            ),
    decreases run.len(),
{
    if run.len() > 0 {
        let before = run.drop_last();
        beginnings_are_runs(capacity, run, (run.len() - 1) as nat);
        assert(run.take(run.len() - 1) =~= before);
        slots_are_within_the_ring(capacity, before);
        let pt = execution::producer_trace(before);
        let ct = execution::consumer_trace(before);
        index::lemma_slot_bound(capacity, protocol::sent(pt).len());
        index::lemma_slot_bound(capacity, protocol::received(ct).len());
        let producer = execution::producer_trace(run);
        let consumer = execution::consumer_trace(run);
        if producer.len() > pt.len() {
            protocol::lemma_producer_step(capacity, pt, producer.last());
            assert(producer =~= pt.push(producer.last()));
        }
        if consumer.len() > ct.len() {
            protocol::lemma_consumer_step(capacity, ct, consumer.last());
            assert(consumer =~= ct.push(consumer.last()));
        }
        assert forall|i: int| 0 <= i < producer.len() implies writes_within(
            capacity,
            #[trigger] producer[i],
        ) by {
            if i < pt.len() {
                assert(producer[i] == pt[i]);
            }
        }
        assert forall|i: int| 0 <= i < consumer.len() implies takes_within(
            capacity,
            #[trigger] consumer[i],
        ) by {
            if i < ct.len() {
                assert(consumer[i] == ct[i]);
            }
        }
    }
}

/// The slots hold exactly the elements that were sent and not yet received, each in
/// one slot, and nothing else.
pub proof fn slots_hold_what_is_under_way<T>(capacity: nat, run: Seq<Event<T>>, position: nat)
    requires
        execution::is_run(capacity, run),
        execution::received(run).len() <= position < execution::received(run).len()
            + capacity,
    ensures
        execution::slots(capacity, run).len() == capacity,
        execution::slots(capacity, run)[index::slot_of(capacity, position) as int]
            == (if position < execution::sent(run).len() {
            Some(execution::sent(run)[position as int])
        } else {
            None
        }),
{
    execution::lemma_balanced(capacity, run);
}

/// The positions from the first that was not received fill the ring: each slot has
/// exactly one of them.
pub proof fn every_slot_has_one_position(capacity: nat, first: nat, slot: usize) -> (position: nat)
    requires
        index::is_capacity(capacity),
        slot < capacity,
    ensures
        first <= position < first + capacity,
        index::slot_of(capacity, position) == slot,
        forall|other: nat|
            first <= other < first + capacity && #[trigger] index::slot_of(capacity, other)
                == slot ==> other == position,
{
    let c = capacity as int;
    index::lemma_capacity(capacity);
    index::lemma_slot_bound(capacity, first);
    let start = first as int % c;
    let position = if slot >= start {
        (first + (slot - start)) as nat
    } else {
        (first + (slot - start) + c) as nat
    };
    vstd::arithmetic::div_mod::lemma_fundamental_div_mod(first as int, c);
    let laps = first as int / c;
    if slot >= start {
        assert(position == c * laps + slot);
        vstd::arithmetic::div_mod::lemma_mod_multiples_vanish(laps, slot as int, c);
    } else {
        assert(c * (laps + 1) == c * laps + c) by (nonlinear_arith);
        assert(position == c * (laps + 1) + slot);
        vstd::arithmetic::div_mod::lemma_mod_multiples_vanish(laps + 1, slot as int, c);
    }
    vstd::arithmetic::div_mod::lemma_small_mod(slot as nat, capacity);
    assert forall|other: nat|
        first <= other < first + capacity && #[trigger] index::slot_of(capacity, other)
            == slot implies other == position by {
        if other < position {
            index::lemma_slots_differ(capacity, other, position);
        } else if position < other {
            index::lemma_slots_differ(capacity, position, other);
        }
    }
    position
}

/// The last point of a run at which the producer had made its first `len` accesses.
proof fn lemma_producer_was_at<T>(capacity: nat, run: Seq<Event<T>>, len: nat) -> (at: nat)
    requires
        execution::is_run(capacity, run),
        len <= execution::producer_trace(run).len(),
    ensures
        at <= run.len(),
        execution::is_run(capacity, run.take(at as int)),
        execution::producer_trace(run.take(at as int)) == execution::producer_trace(run).take(
            len as int,
        ),
        (forall|i: int|
            len <= i < execution::producer_trace(run).len() ==> !(
            #[trigger] execution::producer_trace(run)[i] is LoadHead)) ==> execution::head_known(
            run.take(at as int),
        ) == execution::head_known(run),
        forall|n: nat|
            n <= run.len() && (#[trigger] execution::producer_trace(run.take(n as int))).len()
                <= len ==> n <= at,
    decreases run.len(),
{
    let trace = execution::producer_trace(run);
    if len == trace.len() {
        assert(trace.take(len as int) =~= trace);
        assert(run.take(run.len() as int) =~= run);
        run.len()
    } else {
        let before = run.drop_last();
        let earlier = execution::producer_trace(before);
        beginnings_are_runs(capacity, run, (run.len() - 1) as nat);
        assert(run.take(run.len() - 1) =~= before);
        let at = lemma_producer_was_at(capacity, before, len);
        assert(trace.take(len as int) =~= earlier.take(len as int));
        assert(before.take(at as int) =~= run.take(at as int));
        if forall|i: int| len <= i < trace.len() ==> !(#[trigger] trace[i] is LoadHead) {
            assert forall|i: int| len <= i < earlier.len() implies !(
            #[trigger] earlier[i] is LoadHead) by {
                assert(trace[i] == earlier[i]);
            }
            assert(!(trace[trace.len() - 1] is LoadHead));
        }
        assert forall|n: nat|
            n <= run.len() && (#[trigger] execution::producer_trace(run.take(n as int))).len()
                <= len implies n <= at by {
            if n == run.len() {
                assert(run.take(n as int) =~= run);
            } else {
                assert(before.take(n as int) =~= run.take(n as int));
            }
        }
        at
    }
}

/// What the producer reads of the other counter never falls back.
proof fn lemma_head_reads_grow<T>(capacity: nat, run: Seq<Event<T>>, n: nat)
    requires
        execution::memory_agrees(capacity, run),
        n <= run.len(),
    ensures
        execution::head_read(run.take(n as int)) <= execution::head_read(run),
    decreases run.len(),
{
    if n == run.len() {
        assert(run.take(n as int) =~= run);
    } else {
        let before = run.drop_last();
        assert(before.take(n as int) =~= run.take(n as int));
        lemma_head_reads_grow(capacity, before, n);
    }
}

/// The producer's last load is no older than any read before it.
proof fn lemma_head_load_is_later<T>(capacity: nat, run: Seq<Event<T>>, n: nat, at: int)
    requires
        execution::memory_agrees(capacity, run),
        n <= run.len(),
        execution::producer_trace(run.take(n as int)).len() <= at < execution::producer_trace(
            run,
        ).len(),
        execution::producer_trace(run)[at] is LoadHead,
        forall|i: int|
            at < i < execution::producer_trace(run).len() ==> !(
            #[trigger] execution::producer_trace(run)[i] is LoadHead),
    ensures
        execution::head_read(run.take(n as int)) <= execution::head_known(run),
    decreases run.len(),
{
    let before = run.drop_last();
    let trace = execution::producer_trace(run);
    let earlier = execution::producer_trace(before);
    if n == run.len() {
        assert(run.take(n as int) =~= run);
    }
    assert(before.take(n as int) =~= run.take(n as int));
    if earlier.len() <= at {
        assert(trace[at] == trace.last());
        lemma_head_reads_grow(capacity, before, n);
    } else {
        assert(earlier[at] == trace[at]);
        assert forall|i: int| at < i < earlier.len() implies !(
        #[trigger] earlier[i] is LoadHead) by {
            assert(trace[i] == earlier[i]);
        }
        if trace.len() > earlier.len() {
            assert(!(trace[earlier.len() as int] is LoadHead));
        }
        lemma_head_load_is_later(capacity, before, n, at);
    }
}

/// The last point of a run at which the consumer had made its first `len` accesses.
proof fn lemma_consumer_was_at<T>(capacity: nat, run: Seq<Event<T>>, len: nat) -> (at: nat)
    requires
        execution::is_run(capacity, run),
        len <= execution::consumer_trace(run).len(),
    ensures
        at <= run.len(),
        execution::is_run(capacity, run.take(at as int)),
        execution::consumer_trace(run.take(at as int)) == execution::consumer_trace(run).take(
            len as int,
        ),
        (forall|i: int|
            len <= i < execution::consumer_trace(run).len() ==> !(
            #[trigger] execution::consumer_trace(run)[i] is LoadTail)) ==> execution::tail_known(
            run.take(at as int),
        ) == execution::tail_known(run),
        forall|n: nat|
            n <= run.len() && (#[trigger] execution::consumer_trace(run.take(n as int))).len()
                <= len ==> n <= at,
    decreases run.len(),
{
    let trace = execution::consumer_trace(run);
    if len == trace.len() {
        assert(trace.take(len as int) =~= trace);
        assert(run.take(run.len() as int) =~= run);
        run.len()
    } else {
        let before = run.drop_last();
        let earlier = execution::consumer_trace(before);
        beginnings_are_runs(capacity, run, (run.len() - 1) as nat);
        assert(run.take(run.len() - 1) =~= before);
        let at = lemma_consumer_was_at(capacity, before, len);
        assert(trace.take(len as int) =~= earlier.take(len as int));
        assert(before.take(at as int) =~= run.take(at as int));
        if forall|i: int| len <= i < trace.len() ==> !(#[trigger] trace[i] is LoadTail) {
            assert forall|i: int| len <= i < earlier.len() implies !(
            #[trigger] earlier[i] is LoadTail) by {
                assert(trace[i] == earlier[i]);
            }
            assert(!(trace[trace.len() - 1] is LoadTail));
        }
        assert forall|n: nat|
            n <= run.len() && (#[trigger] execution::consumer_trace(run.take(n as int))).len()
                <= len implies n <= at by {
            if n == run.len() {
                assert(run.take(n as int) =~= run);
            } else {
                assert(before.take(n as int) =~= run.take(n as int));
            }
        }
        at
    }
}

/// What the consumer reads of the other counter never falls back.
proof fn lemma_tail_reads_grow<T>(capacity: nat, run: Seq<Event<T>>, n: nat)
    requires
        execution::memory_agrees(capacity, run),
        n <= run.len(),
    ensures
        execution::tail_read(run.take(n as int)) <= execution::tail_read(run),
    decreases run.len(),
{
    if n == run.len() {
        assert(run.take(n as int) =~= run);
    } else {
        let before = run.drop_last();
        assert(before.take(n as int) =~= run.take(n as int));
        lemma_tail_reads_grow(capacity, before, n);
    }
}

/// The consumer's last load is no older than any read before it.
proof fn lemma_tail_load_is_later<T>(capacity: nat, run: Seq<Event<T>>, n: nat, at: int)
    requires
        execution::memory_agrees(capacity, run),
        n <= run.len(),
        execution::consumer_trace(run.take(n as int)).len() <= at < execution::consumer_trace(
            run,
        ).len(),
        execution::consumer_trace(run)[at] is LoadTail,
        forall|i: int|
            at < i < execution::consumer_trace(run).len() ==> !(
            #[trigger] execution::consumer_trace(run)[i] is LoadTail),
    ensures
        execution::tail_read(run.take(n as int)) <= execution::tail_known(run),
    decreases run.len(),
{
    let before = run.drop_last();
    let trace = execution::consumer_trace(run);
    let earlier = execution::consumer_trace(before);
    if n == run.len() {
        assert(run.take(n as int) =~= run);
    }
    assert(before.take(n as int) =~= run.take(n as int));
    if earlier.len() <= at {
        assert(trace[at] == trace.last());
        lemma_tail_reads_grow(capacity, before, n);
    } else {
        assert(earlier[at] == trace[at]);
        assert forall|i: int| at < i < earlier.len() implies !(
        #[trigger] earlier[i] is LoadTail) by {
            assert(trace[i] == earlier[i]);
        }
        if trace.len() > earlier.len() {
            assert(!(trace[earlier.len() as int] is LoadTail));
        }
        lemma_tail_load_is_later(capacity, before, n, at);
    }
}

/// What the counters say to a producer that has just made up its mind to write.
proof fn lemma_producer_decides<T>(
    before: Producer<T>,
    after: Producer<T>,
    reloads: bool,
    run: Seq<Event<T>>,
)
    requires
        before.wf(),
        after.wf(),
        after.cap() == before.cap(),
        after.trace() == execution::producer_trace(run),
        execution::is_run(after.cap(), run),
        ({
            let load = protocol::head_load::<T>(reloads, after.head_counter());
            let len = (before.trace() + load).len();
            &&& len <= after.trace().len()
            &&& after.trace().take(len as int) == before.trace() + load
            &&& forall|i: int|
                len <= i < after.trace().len() ==> !(#[trigger] after.trace()[i] is LoadHead)
        }),
    ensures
        execution::head_known(run) <= before.sent().len()
            <= execution::head_known(run) + after.cap(),
        index::distance(before.tail_counter(), after.head_counter())
            == before.sent().len() - execution::head_known(run),
{
    let capacity = after.cap();
    let load = protocol::head_load::<T>(reloads, after.head_counter());
    let at = lemma_producer_was_at(capacity, run, (before.trace() + load).len());
    let beginning = run.take(at as int);
    if reloads {
        let step = ProducerStep::<T>::LoadHead(after.head_counter());
        assert(before.trace() + load =~= before.trace().push(step));
        protocol::lemma_producer_step(capacity, before.trace(), step);
    } else {
        assert(before.trace() + load =~= before.trace());
    }
    execution::lemma_balanced(capacity, beginning);
    execution::lemma_balanced(capacity, run);
    index::lemma_capacity(capacity);
    index::lemma_distance(before.sent().len(), execution::head_known(run));
}

/// What the counters say to a consumer that has just made up its mind to take.
proof fn lemma_consumer_decides<T>(
    before: Consumer<T>,
    after: Consumer<T>,
    reloads: bool,
    run: Seq<Event<T>>,
)
    requires
        before.wf(),
        after.wf(),
        after.cap() == before.cap(),
        after.trace() == execution::consumer_trace(run),
        execution::is_run(after.cap(), run),
        ({
            let load = protocol::tail_load::<T>(reloads, after.tail_counter());
            let len = (before.trace() + load).len();
            &&& len <= after.trace().len()
            &&& after.trace().take(len as int) == before.trace() + load
            &&& forall|i: int|
                len <= i < after.trace().len() ==> !(#[trigger] after.trace()[i] is LoadTail)
        }),
    ensures
        before.received().len() <= execution::tail_known(run) <= before.received().len()
            + after.cap(),
        index::distance(after.tail_counter(), before.head_counter())
            == execution::tail_known(run) - before.received().len(),
{
    let capacity = after.cap();
    let load = protocol::tail_load::<T>(reloads, after.tail_counter());
    let at = lemma_consumer_was_at(capacity, run, (before.trace() + load).len());
    let beginning = run.take(at as int);
    if reloads {
        let step = ConsumerStep::<T>::LoadTail(after.tail_counter());
        assert(before.trace() + load =~= before.trace().push(step));
        protocol::lemma_consumer_step(capacity, before.trace(), step);
    } else {
        assert(before.trace() + load =~= before.trace());
    }
    execution::lemma_balanced(capacity, beginning);
    execution::lemma_balanced(capacity, run);
    index::lemma_capacity(capacity);
    index::lemma_distance(execution::tail_known(run), before.received().len());
}

/// A pop fails only when all that the consumer knows to be published was popped
/// before, and otherwise it gives the oldest element that was not yet popped.
pub proof fn pop_gives_the_next_element<T>(
    before: Consumer<T>,
    after: Consumer<T>,
    item: Option<T>,
    run: Seq<Event<T>>,
)
    requires
        before.wf(),
        after.wf(),
        before.pop_effect(after, item),
        after.trace() == execution::consumer_trace(run),
        execution::is_run(after.cap(), run),
    ensures
        item is None <==> before.received().len() == execution::tail_known(run),
        item is Some ==> before.received().len() < execution::sent(run).len() && item
            == Some(execution::sent(run)[before.received().len() as int]),
{
    let capacity = after.cap();
    let load = protocol::tail_load::<T>(before.looks_empty(), after.tail_counter());
    let at = (before.trace() + load).len();
    assert(after.trace().take(at as int) =~= before.trace() + load);
    lemma_consumer_decides(before, after, before.looks_empty(), run);
    execution::lemma_balanced(capacity, run);
    no_access_fails(capacity, run);
    if !index::is_empty(after.tail_counter(), before.head_counter()) {
        assert(succeeds(after.trace()[at as int]));
        assert(after.received().last() == item->0);
    }
}

/// A pop into a slice gives the oldest elements that were not yet popped, as many as
/// fit and are known to be published.
#[verifier::spinoff_prover]
pub proof fn pop_slice_gives_the_next_elements<T>(
    before: Consumer<T>,
    after: Consumer<T>,
    out: Seq<T>,
    filled: Seq<T>,
    popped: nat,
    run: Seq<Event<T>>,
)
    requires
        before.wf(),
        after.wf(),
        before.pop_slice_effect(after, out, filled, popped),
        after.trace() == execution::consumer_trace(run),
        execution::is_run(after.cap(), run),
    ensures
        popped == vstd::math::min(
            out.len() as int,
            execution::tail_known(run) - before.received().len(),
        ),
        before.received().len() + popped <= execution::sent(run).len(),
        filled.take(popped as int) == execution::sent(run).subrange(
            before.received().len() as int,
            (before.received().len() + popped) as int,
        ),
{
    let capacity = after.cap();
    let first = before.received().len();
    let reloads = out.len() > before.available();
    let load = protocol::tail_load::<T>(reloads, after.tail_counter());
    let loaded = before.trace() + load;
    let wanted = vstd::math::min(
        out.len() as int,
        index::distance(after.tail_counter(), before.head_counter()),
    );
    assert(after.trace().take(loaded.len() as int) =~= loaded);
    assert(popped == wanted) by {
        no_access_fails(capacity, run);
        if popped < wanted {
            assert(succeeds(after.trace()[(loaded.len() + popped) as int]));
        }
    }
    lemma_consumer_decides(before, after, reloads, run);
    execution::lemma_balanced(capacity, run);
    assert(filled.take(popped as int) =~= after.received().skip(first as int));
}

/// A push fails only when the elements pushed since the last slot that the producer
/// knows to be released fill the ring.
pub proof fn push_fails_on_a_full_ring<T>(
    before: Producer<T>,
    after: Producer<T>,
    item: T,
    result: Result<(), T>,
    run: Seq<Event<T>>,
)
    requires
        before.wf(),
        after.wf(),
        before.push_effect(after, item, result),
        after.trace() == execution::producer_trace(run),
        execution::is_run(after.cap(), run),
    ensures
        result is Err <==> before.sent().len() == execution::head_known(run) + after.cap(),
        result is Ok <==> before.sent().len() < execution::head_known(run) + after.cap(),
{
    let load = protocol::head_load::<T>(before.looks_full(), after.head_counter());
    assert(after.trace().take((before.trace() + load).len() as int) =~= before.trace() + load);
    lemma_producer_decides(before, after, before.looks_full(), run);
    no_access_fails(after.cap(), run);
    if result is Err && before.sent().len() < execution::head_known(run) + after.cap() {
        assert(after.trace()[(before.trace() + load).len() as int] is Busy);
    }
}

/// A push succeeds only while fewer elements are queued than the capacity, and it fails
/// only while as many are, if the producer knows of all that was released. So it is after
/// any number of elements, also where the counters wrap.
pub proof fn push_succeeds_on_room_at_any_count<T>(
    before: Producer<T>,
    after: Producer<T>,
    item: T,
    result: Result<(), T>,
    run: Seq<Event<T>>,
)
    requires
        before.wf(),
        after.wf(),
        before.push_effect(after, item, result),
        after.trace() == execution::producer_trace(run),
        execution::is_run(after.cap(), run),
    ensures
        result is Ok ==> before.sent().len() - execution::received(run).len() < after.cap(),
        execution::head_known(run) == execution::received(run).len() ==> (result is Ok
            <==> before.sent().len() - execution::received(run).len() < after.cap()),
        after.sent() == (if result is Ok {
            before.sent().push(item)
        } else {
            before.sent()
        }),
        execution::received(run) == after.sent().take(execution::received(run).len() as int),
{
    push_fails_on_a_full_ring(before, after, item, result, run);
    execution::lemma_balanced(after.cap(), run);
}

/// A push of a slice takes as many elements as fit besides those pushed since the
/// last slot that the producer knows to be released.
pub proof fn push_slice_fills_the_ring<T>(
    before: Producer<T>,
    after: Producer<T>,
    items: Seq<T>,
    pushed: nat,
    run: Seq<Event<T>>,
)
    requires
        before.wf(),
        after.wf(),
        before.push_slice_effect(after, items, pushed),
        after.trace() == execution::producer_trace(run),
        execution::is_run(after.cap(), run),
    ensures
        pushed == vstd::math::min(
            items.len() as int,
            execution::head_known(run) + after.cap() - before.sent().len(),
        ),
{
    let reloads = items.len() > before.room();
    let load = protocol::head_load::<T>(reloads, after.head_counter());
    assert(after.trace().take((before.trace() + load).len() as int) =~= before.trace() + load);
    lemma_producer_decides(before, after, reloads, run);
    let wanted = vstd::math::min(
        items.len() as int,
        index::room(before.cap(), before.tail_counter(), after.head_counter()),
    );
    no_access_fails(after.cap(), run);
    if pushed < wanted {
        assert(after.trace()[((before.trace() + load).len() + pushed) as int] is Busy);
    }
}

/// The difference of the two counters is the number of elements between the ends:
/// the ring is full when it is the capacity and empty when it is zero, and it is
/// never more. So it is for each count of released elements that the producer can
/// still read.
pub proof fn counters_tell_how_many_are_queued<T>(capacity: nat, run: Seq<Event<T>>, released: nat)
    requires
        execution::is_run(capacity, run),
        execution::head_known(run) <= released <= execution::released(run),
    ensures
        ({
            let queued = execution::sent(run).len() - released;
            let tail = index::counter(execution::sent(run).len());
            let head = index::counter(released);
            &&& 0 <= queued <= capacity
            &&& index::distance(tail, head) == queued
            &&& index::is_full(capacity, tail, head) <==> queued == capacity
            &&& index::is_empty(tail, head) <==> queued == 0
            &&& index::room(capacity, tail, head) == capacity - queued
        }),
{
    execution::lemma_balanced(capacity, run);
    index::lemma_capacity(capacity);
    index::lemma_distance(execution::sent(run).len(), released);
}

/// The consumer's view of the same: the difference of its counter to each count of
/// published elements that it can still read is the number of elements to pop.
pub proof fn counters_tell_how_many_to_pop<T>(capacity: nat, run: Seq<Event<T>>, published: nat)
    requires
        execution::is_run(capacity, run),
        execution::tail_known(run) <= published <= execution::published(run),
    ensures
        ({
            let queued = published - execution::received(run).len();
            let tail = index::counter(published);
            let head = index::counter(execution::received(run).len());
            &&& 0 <= queued <= capacity
            &&& index::distance(tail, head) == queued
            &&& index::is_empty(tail, head) <==> queued == 0
        }),
{
    execution::lemma_balanced(capacity, run);
    index::lemma_capacity(capacity);
    index::lemma_distance(published, execution::received(run).len());
}

/// The states of a producer through a series of pushes, with what they pushed and
/// returned.
pub open spec fn is_series_of_pushes<T>(
    states: Seq<Producer<T>>,
    items: Seq<T>,
    results: Seq<Result<(), T>>,
) -> bool {
    &&& states.len() == results.len() + 1
    &&& items.len() == results.len()
    &&& forall|i: int| 0 <= i < states.len() ==> (#[trigger] states[i]).wf()
    &&& forall|i: int|
        0 <= i < results.len() ==> states[i].push_effect(
            states[i + 1],
            items[i],
            #[trigger] results[i],
        )
}

/// The states of a consumer through a series of pops, with what they returned.
pub open spec fn is_series_of_pops<T>(states: Seq<Consumer<T>>, results: Seq<Option<T>>) -> bool {
    &&& states.len() == results.len() + 1
    &&& forall|i: int| 0 <= i < states.len() ==> (#[trigger] states[i]).wf()
    &&& forall|i: int|
        0 <= i < results.len() ==> states[i].pop_effect(states[i + 1], #[trigger] results[i])
}

/// Through a series of pushes the traces grow, and no more is sent than was pushed.
proof fn lemma_pushes_grow<T>(
    states: Seq<Producer<T>>,
    items: Seq<T>,
    results: Seq<Result<(), T>>,
    i: int,
    j: int,
)
    requires
        is_series_of_pushes(states, items, results),
        0 <= i <= j < states.len(),
    ensures
        states[i].cap() == states[j].cap(),
        states[i].trace().len() <= states[j].trace().len(),
        states[i].trace() == states[j].trace().take(states[i].trace().len() as int),
        states[j].sent().len() <= states[i].sent().len() + (j - i),
    decreases j - i,
{
    if i == j {
        assert(states[i].trace() =~= states[i].trace().take(states[i].trace().len() as int));
    } else {
        lemma_pushes_grow(states, items, results, i, j - 1);
        assert(states[j - 1].push_effect(states[j - 1 + 1], items[j - 1], results[j - 1]));
        assert(states[i].trace() =~= states[j].trace().take(states[i].trace().len() as int));
    }
}

/// Through a series of pops the traces grow, and no more is received than was popped.
proof fn lemma_pops_grow<T>(states: Seq<Consumer<T>>, results: Seq<Option<T>>, i: int, j: int)
    requires
        is_series_of_pops(states, results),
        0 <= i <= j < states.len(),
    ensures
        states[i].cap() == states[j].cap(),
        states[i].trace().len() <= states[j].trace().len(),
        states[i].trace() == states[j].trace().take(states[i].trace().len() as int),
        states[j].received().len() <= states[i].received().len() + (j - i),
    decreases j - i,
{
    if i == j {
        assert(states[i].trace() =~= states[i].trace().take(states[i].trace().len() as int));
    } else {
        lemma_pops_grow(states, results, i, j - 1);
        assert(states[j - 1].pop_effect(states[j - 1 + 1], results[j - 1]));
        assert(states[j].trace().take(states[j - 1].trace().len() as int)
            =~= states[j - 1].trace());
        assert(states[i].trace() =~= states[j].trace().take(states[i].trace().len() as int));
    }
}

/// A push that starts after the consumer's counter was read, and while fewer elements
/// were sent than fit besides those not released by then, succeeds.
proof fn lemma_push_after_read<T>(
    before: Producer<T>,
    after: Producer<T>,
    item: T,
    result: Result<(), T>,
    seen: nat,
    run: Seq<Event<T>>,
)
    requires
        before.wf(),
        after.wf(),
        before.push_effect(after, item, result),
        after.trace() == execution::producer_trace(run),
        execution::is_run(after.cap(), run),
        seen <= run.len(),
        execution::producer_trace(run.take(seen as int)).len() <= before.trace().len(),
        before.sent().len() < execution::head_read(run.take(seen as int)) + after.cap(),
    ensures
        result is Ok,
{
    push_fails_on_a_full_ring(before, after, item, result, run);
    if result is Err {
        let full = index::is_full(before.cap(), before.tail_counter(), after.head_counter());
        no_access_fails(after.cap(), run);
        if !full {
            let load = protocol::head_load::<T>(before.looks_full(), after.head_counter());
            assert(after.trace()[(before.trace() + load).len() as int] is Busy);
        }
        assert(after.trace()[before.trace().len() as int] is LoadHead);
        lemma_head_load_is_later(after.cap(), run, seen, before.trace().len() as int);
    }
}

/// A pop that starts after the producer's counter was read, and while fewer elements
/// were received than were published by then, gives an element.
proof fn lemma_pop_after_read<T>(
    before: Consumer<T>,
    after: Consumer<T>,
    item: Option<T>,
    seen: nat,
    run: Seq<Event<T>>,
)
    requires
        before.wf(),
        after.wf(),
        before.pop_effect(after, item),
        after.trace() == execution::consumer_trace(run),
        execution::is_run(after.cap(), run),
        seen <= run.len(),
        execution::consumer_trace(run.take(seen as int)).len() <= before.trace().len(),
        before.received().len() < execution::tail_read(run.take(seen as int)),
    ensures
        item is Some,
{
    pop_gives_the_next_element(before, after, item, run);
    if item is None {
        let empty = index::is_empty(after.tail_counter(), before.head_counter());
        no_access_fails(after.cap(), run);
        if !empty {
            let load = protocol::tail_load::<T>(before.looks_empty(), after.tail_counter());
            assert(succeeds(after.trace()[(before.trace() + load).len() as int]));
        }
        assert(after.trace()[before.trace().len() as int] is LoadTail);
        lemma_tail_load_is_later(after.cap(), run, seen, before.trace().len() as int);
    }
}

/// Room once seen by the producer is never lost, as the consumer can only add to it.
/// Where `len` was found at the point `seen` of a run, from a look at the consumer's
/// counter, as many pushes as the capacity leaves beside `len` all succeed.
pub proof fn room_once_seen_is_kept<T>(
    states: Seq<Producer<T>>,
    items: Seq<T>,
    results: Seq<Result<(), T>>,
    len: nat,
    count: nat,
    seen: nat,
    run: Seq<Event<T>>,
)
    requires
        is_series_of_pushes(states, items, results),
        execution::is_run(states[0].cap(), run),
        0 < seen <= run.len(),
        run[seen - 1] == (Event::<T>::PeekHead { count }),
        states[0].trace() == execution::producer_trace(run.take(seen as int)),
        states.last().trace() == execution::producer_trace(run),
        len == index::distance(states[0].tail_counter(), index::counter(count)),
        len + results.len() <= states[0].cap(),
    ensures
        forall|i: int| 0 <= i < results.len() ==> #[trigger] results[i] is Ok,
{
    let capacity = states[0].cap();
    let beginning = run.take(seen as int);
    beginnings_are_runs(capacity, run, seen);
    execution::lemma_balanced(capacity, beginning);
    assert(beginning.last() == run[seen - 1]);
    index::lemma_capacity(capacity);
    index::lemma_distance(states[0].sent().len(), count);
    assert forall|i: int| 0 <= i < results.len() implies #[trigger] results[i] is Ok by {
        let before = states[i];
        let after = states[i + 1];
        assert(before.push_effect(after, items[i], results[i]));
        lemma_pushes_grow(states, items, results, 0, i);
        lemma_pushes_grow(states, items, results, 0, i + 1);
        lemma_pushes_grow(states, items, results, i + 1, states.len() - 1);
        let at = lemma_producer_was_at(capacity, run, after.trace().len());
        assert(execution::producer_trace(run.take(seen as int)).len() <= after.trace().len());
        let until = run.take(at as int);
        assert(until.take(seen as int) =~= beginning);
        lemma_push_after_read(before, after, items[i], results[i], seen, until);
    }
}

/// An element once seen by the consumer cannot disappear. Where `len` was found at the
/// point `seen` of a run, from a look at the producer's counter, that many pops all give
/// an element.
pub proof fn elements_once_seen_are_kept<T>(
    states: Seq<Consumer<T>>,
    results: Seq<Option<T>>,
    len: nat,
    count: nat,
    seen: nat,
    run: Seq<Event<T>>,
)
    requires
        is_series_of_pops(states, results),
        execution::is_run(states[0].cap(), run),
        0 < seen <= run.len(),
        run[seen - 1] == (Event::<T>::PeekTail { count }),
        states[0].trace() == execution::consumer_trace(run.take(seen as int)),
        states.last().trace() == execution::consumer_trace(run),
        len == index::distance(index::counter(count), states[0].head_counter()),
        results.len() <= len,
    ensures
        forall|i: int| 0 <= i < results.len() ==> #[trigger] results[i] is Some,
{
    let capacity = states[0].cap();
    let beginning = run.take(seen as int);
    beginnings_are_runs(capacity, run, seen);
    execution::lemma_balanced(capacity, beginning);
    assert(beginning.last() == run[seen - 1]);
    index::lemma_capacity(capacity);
    index::lemma_distance(count, states[0].received().len());
    assert forall|i: int| 0 <= i < results.len() implies #[trigger] results[i] is Some by {
        let before = states[i];
        let after = states[i + 1];
        assert(before.pop_effect(after, results[i]));
        lemma_pops_grow(states, results, 0, i);
        lemma_pops_grow(states, results, 0, i + 1);
        lemma_pops_grow(states, results, i + 1, states.len() - 1);
        let at = lemma_consumer_was_at(capacity, run, after.trace().len());
        assert(execution::consumer_trace(run.take(seen as int)).len() <= after.trace().len());
        let until = run.take(at as int);
        assert(until.take(seen as int) =~= beginning);
        lemma_pop_after_read(before, after, results[i], seen, until);
    }
}

/// What `len` gives the producer is within the capacity, whatever the consumer does: it
/// is the number of elements sent, less those that the consumer's counter stood for.
pub proof fn len_of_the_producer_is_bounded<T>(
    producer: Producer<T>,
    len: int,
    count: nat,
    run: Seq<Event<T>>,
)
    requires
        producer.wf(),
        producer.trace() == execution::producer_trace(run),
        execution::is_run(producer.cap(), run),
        run.len() > 0,
        run.last() == (Event::<T>::PeekHead { count }),
        len == index::distance(producer.tail_counter(), index::counter(count)),
    ensures
        0 <= len <= producer.cap(),
        len == producer.sent().len() - count,
{
    execution::lemma_balanced(producer.cap(), run);
    index::lemma_capacity(producer.cap());
    index::lemma_distance(producer.sent().len(), count);
}

/// What `len` gives the consumer is within the capacity, whatever the producer does: it
/// is the number of elements that the producer's counter stood for, less those received.
pub proof fn len_of_the_consumer_is_bounded<T>(
    consumer: Consumer<T>,
    len: int,
    count: nat,
    run: Seq<Event<T>>,
)
    requires
        consumer.wf(),
        consumer.trace() == execution::consumer_trace(run),
        execution::is_run(consumer.cap(), run),
        run.len() > 0,
        run.last() == (Event::<T>::PeekTail { count }),
        len == index::distance(index::counter(count), consumer.head_counter()),
    ensures
        0 <= len <= consumer.cap(),
        len == count - consumer.received().len(),
{
    execution::lemma_balanced(consumer.cap(), run);
    index::lemma_capacity(consumer.cap());
    index::lemma_distance(count, consumer.received().len());
}

/// Between two looks with no push in between, the producer's `len` does not grow: the
/// consumer can only take away. The first look is at the point `seen` of the run, the
/// second at its end.
pub proof fn len_does_not_grow_without_a_push<T>(
    before: Producer<T>,
    after: Producer<T>,
    first: int,
    second: int,
    count: nat,
    later: nat,
    seen: nat,
    run: Seq<Event<T>>,
)
    requires
        before.wf(),
        after.wf(),
        after.cap() == before.cap(),
        after.sent() == before.sent(),
        execution::is_run(after.cap(), run),
        0 < seen <= run.len(),
        run[seen - 1] == (Event::<T>::PeekHead { count }),
        run.last() == (Event::<T>::PeekHead { count: later }),
        before.trace() == execution::producer_trace(run.take(seen as int)),
        after.trace() == execution::producer_trace(run),
        first == index::distance(before.tail_counter(), index::counter(count)),
        second == index::distance(after.tail_counter(), index::counter(later)),
    ensures
        second <= first,
{
    let beginning = run.take(seen as int);
    beginnings_are_runs(after.cap(), run, seen);
    assert(beginning.last() == run[seen - 1]);
    len_of_the_producer_is_bounded(before, first, count, beginning);
    len_of_the_producer_is_bounded(after, second, later, run);
    lemma_head_reads_grow(after.cap(), run, seen);
}

/// Between two looks with no pop in between, the consumer's `len` does not shrink: the
/// producer can only add. The first look is at the point `seen` of the run, the second
/// at its end.
pub proof fn len_does_not_shrink_without_a_pop<T>(
    before: Consumer<T>,
    after: Consumer<T>,
    first: int,
    second: int,
    count: nat,
    later: nat,
    seen: nat,
    run: Seq<Event<T>>,
)
    requires
        before.wf(),
        after.wf(),
        after.cap() == before.cap(),
        after.received() == before.received(),
        execution::is_run(after.cap(), run),
        0 < seen <= run.len(),
        run[seen - 1] == (Event::<T>::PeekTail { count }),
        run.last() == (Event::<T>::PeekTail { count: later }),
        before.trace() == execution::consumer_trace(run.take(seen as int)),
        after.trace() == execution::consumer_trace(run),
        first == index::distance(index::counter(count), before.head_counter()),
        second == index::distance(index::counter(later), after.head_counter()),
    ensures
        first <= second,
{
    let beginning = run.take(seen as int);
    beginnings_are_runs(after.cap(), run, seen);
    assert(beginning.last() == run[seen - 1]);
    len_of_the_consumer_is_bounded(before, first, count, beginning);
    len_of_the_consumer_is_bounded(after, second, later, run);
    lemma_tail_reads_grow(after.cap(), run, seen);
}

/// What is published changes with a store of the counter only.
proof fn lemma_published_stays<T>(trace: Seq<ProducerStep<T>>, from: nat, at: nat)
    requires
        from <= at <= trace.len(),
        forall|i: int| from <= i < at ==> !(#[trigger] trace[i] is StoreTail),
    ensures
        protocol::published(trace.take(at as int)) == protocol::published(trace.take(from as int)),
    decreases at,
{
    if from < at {
        lemma_published_stays(trace, from, (at - 1) as nat);
        assert(trace.take(at as int).drop_last() =~= trace.take(at - 1));
        assert(!(trace[at - 1] is StoreTail));
    }
}

/// What is released changes with a store of the counter only.
proof fn lemma_released_stays<T>(trace: Seq<ConsumerStep<T>>, from: nat, at: nat)
    requires
        from <= at <= trace.len(),
        forall|i: int| from <= i < at ==> !(#[trigger] trace[i] is StoreHead),
    ensures
        protocol::released(trace.take(at as int)) == protocol::released(trace.take(from as int)),
    decreases at,
{
    if from < at {
        lemma_released_stays(trace, from, (at - 1) as nat);
        assert(trace.take(at as int).drop_last() =~= trace.take(at - 1));
        assert(!(trace[at - 1] is StoreHead));
    }
}

/// A slice is published at once: at each point of the call, after so many accesses as `at`
/// says, either none of it is published or all that is pushed of it. All of it is
/// written before.
pub proof fn a_slice_is_published_at_once<T>(
    before: Producer<T>,
    after: Producer<T>,
    items: Seq<T>,
    pushed: nat,
    at: nat,
)
    requires
        before.wf(),
        after.wf(),
        before.push_slice_effect(after, items, pushed),
        before.trace().len() <= at <= after.trace().len(),
    ensures
        protocol::published(after.trace().take(at as int)) == (if at < after.trace().len() {
            before.sent().len()
        } else {
            before.sent().len() + pushed
        }),
        pushed > 0 ==> after.trace().len() > before.trace().len() && after.trace().last()
            is StoreTail && protocol::sent(after.trace().drop_last()) == after.sent(),
{
    let trace = after.trace();
    assert(trace.take(before.trace().len() as int) =~= before.trace());
    if at < trace.len() {
        lemma_published_stays(trace, before.trace().len(), at);
    } else {
        assert(trace.take(at as int) =~= trace);
    }
    if pushed > 0 {
        assert(trace =~= trace.drop_last().push(trace.last()));
    }
}

/// The slots of a slice are released at once: at each point of the call, after so many
/// accesses as `at` says, either none of them is released or all that are emptied. All of
/// them are emptied before.
pub proof fn a_slice_is_released_at_once<T>(
    before: Consumer<T>,
    after: Consumer<T>,
    out: Seq<T>,
    filled: Seq<T>,
    popped: nat,
    at: nat,
)
    requires
        before.wf(),
        after.wf(),
        before.pop_slice_effect(after, out, filled, popped),
        before.trace().len() <= at <= after.trace().len(),
    ensures
        protocol::released(after.trace().take(at as int)) == (if at < after.trace().len() {
            before.received().len()
        } else {
            before.received().len() + popped
        }),
        popped > 0 ==> after.trace().len() > before.trace().len() && after.trace().last()
            is StoreHead && protocol::received(after.trace().drop_last()) == after.received(),
{
    let trace = after.trace();
    assert(trace.take(before.trace().len() as int) =~= before.trace());
    if at < trace.len() {
        lemma_released_stays(trace, before.trace().len(), at);
    } else {
        assert(trace.take(at as int) =~= trace);
    }
    if popped > 0 {
        assert(trace =~= trace.drop_last().push(trace.last()));
    }
}

/// A push is done after three accesses of its own at most, whatever the consumer does.
pub proof fn push_is_wait_free<T>(
    before: Producer<T>,
    after: Producer<T>,
    item: T,
    result: Result<(), T>,
)
    requires
        before.push_effect(after, item, result),
    ensures
        after.trace().len() <= before.trace().len() + 3,
{
}

/// A push of a slice is done after one access of its own for each element and two more
/// at most, whatever the consumer does.
pub proof fn push_slice_is_wait_free<T>(
    before: Producer<T>,
    after: Producer<T>,
    items: Seq<T>,
    pushed: nat,
)
    requires
        before.push_slice_effect(after, items, pushed),
    ensures
        after.trace().len() <= before.trace().len() + items.len() + 2,
{
}

/// A pop is done after three accesses of its own at most, whatever the producer does.
pub proof fn pop_is_wait_free<T>(before: Consumer<T>, after: Consumer<T>, item: Option<T>)
    requires
        before.pop_effect(after, item),
    ensures
        after.trace().len() <= before.trace().len() + 3,
{
}

/// A pop into a slice is done after one access of its own for each element that fits
/// and two more at most, whatever the producer does.
pub proof fn pop_slice_is_wait_free<T>(
    before: Consumer<T>,
    after: Consumer<T>,
    out: Seq<T>,
    filled: Seq<T>,
    popped: nat,
)
    requires
        before.pop_slice_effect(after, out, filled, popped),
    ensures
        after.trace().len() <= before.trace().len() + out.len() + 2,
{
}

} // verus!
