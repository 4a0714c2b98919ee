//! Runs that go on while one endpoint is at rest.
//!
//! Each call of the other endpoint adds its accesses to the run, and the memory answers
//! them with the counter as it stands and with what the slots hold.
use vstd::prelude::*;

#[allow(unused_imports)]
use crate::channel;
#[allow(unused_imports)]
use crate::consumer::Consumer;
#[allow(unused_imports)]
use crate::execution;
#[allow(unused_imports)]
use crate::execution::Event;
#[allow(unused_imports)]
use crate::index;
#[allow(unused_imports)]
use crate::laws;
#[allow(unused_imports)]
use crate::producer::Producer;
#[allow(unused_imports)]
use crate::protocol;
#[allow(unused_imports)]
use crate::protocol::{ConsumerStep, ProducerStep};
#[allow(unused_imports)]
use crate::queue;

verus! {

/// The memory bears out a run in which the accesses to slots are well-formed, and
/// neither end is inside of a slot at the end of it.
spec fn is_settled<T>(capacity: nat, run: Seq<Event<T>>) -> bool {
    &&& execution::memory_agrees(capacity, run)
    &&& execution::slots_are_entered(capacity, run)
    &&& execution::writing(run) is None
    &&& execution::taking(run) is None
}

/// A beginning of a producer's trace obeys the rules if the whole trace does.
proof fn lemma_producer_obeyed<T>(capacity: nat, trace: Seq<ProducerStep<T>>, len: nat)
    requires
        protocol::producer_obeys(capacity, trace),
        len <= trace.len(),
    ensures
        protocol::producer_obeys(capacity, trace.take(len as int)),
    decreases trace.len(),
{
    if len == trace.len() {
        assert(trace.take(len as int) =~= trace);
    } else {
        lemma_producer_obeyed(capacity, trace.drop_last(), len);
        assert(trace.drop_last().take(len as int) =~= trace.take(len as int));
    }
}

/// A beginning of a consumer's trace obeys the rules if the whole trace does.
proof fn lemma_consumer_obeyed<T>(capacity: nat, trace: Seq<ConsumerStep<T>>, len: nat)
    requires
        protocol::consumer_obeys(capacity, trace),
        len <= trace.len(),
    ensures
        protocol::consumer_obeys(capacity, trace.take(len as int)),
    decreases trace.len(),
{
    if len == trace.len() {
        assert(trace.take(len as int) =~= trace);
    } else {
        lemma_consumer_obeyed(capacity, trace.drop_last(), len);
        assert(trace.drop_last().take(len as int) =~= trace.take(len as int));
    }
}

/// A run goes on with a load of the consumer's counter as it stands.
proof fn lemma_load_head<T>(capacity: nat, run: Seq<Event<T>>) -> (next: Seq<Event<T>>)
    requires
        is_settled(capacity, run),
        execution::head_read(run) <= execution::released(run),
    ensures
        is_settled(capacity, next),
        execution::producer_trace(next) == execution::producer_trace(run).push(
            ProducerStep::LoadHead(index::counter(execution::released(run))),
        ),
        execution::consumer_trace(next) == execution::consumer_trace(run),
        execution::head_known(next) == execution::released(run),
{
    let next = run.push(Event::LoadHead { count: execution::released(run) });
    assert(next.drop_last() =~= run);
    next
}

/// A run goes on with a load of the producer's counter as it stands.
proof fn lemma_load_tail<T>(capacity: nat, run: Seq<Event<T>>) -> (next: Seq<Event<T>>)
    requires
        is_settled(capacity, run),
        execution::tail_read(run) <= execution::published(run),
    ensures
        is_settled(capacity, next),
        execution::consumer_trace(next) == execution::consumer_trace(run).push(
            ConsumerStep::LoadTail(index::counter(execution::published(run))),
        ),
        execution::producer_trace(next) == execution::producer_trace(run),
        execution::tail_known(next) == execution::published(run),
        execution::slots(capacity, next) == execution::slots(capacity, run),
{
    let next = run.push(Event::LoadTail { count: execution::published(run) });
    assert(next.drop_last() =~= run);
    next
}

/// A run goes on with a store of the producer's counter.
proof fn lemma_store_tail<T>(capacity: nat, run: Seq<Event<T>>, value: usize) -> (next: Seq<
    Event<T>,
>)
    requires
        is_settled(capacity, run),
    ensures
        is_settled(capacity, next),
        execution::producer_trace(next) == execution::producer_trace(run).push(
            ProducerStep::StoreTail(value),
        ),
        execution::consumer_trace(next) == execution::consumer_trace(run),
        execution::head_known(next) == execution::head_known(run),
{
    let next = run.push(Event::StoreTail { value });
    assert(next.drop_last() =~= run);
    next
}

/// A run goes on with a store of the consumer's counter.
proof fn lemma_store_head<T>(capacity: nat, run: Seq<Event<T>>, value: usize) -> (next: Seq<
    Event<T>,
>)
    requires
        is_settled(capacity, run),
    ensures
        is_settled(capacity, next),
        execution::consumer_trace(next) == execution::consumer_trace(run).push(
            ConsumerStep::StoreHead(value),
        ),
        execution::producer_trace(next) == execution::producer_trace(run),
        execution::tail_known(next) == execution::tail_known(run),
{
    let next = run.push(Event::StoreHead { value });
    assert(next.drop_last() =~= run);
    next
}

/// A run goes on with a write, from the entry to the slot to its effect.
proof fn lemma_write<T>(capacity: nat, run: Seq<Event<T>>, slot: usize, item: T) -> (next: Seq<
    Event<T>,
>)
    requires
        is_settled(capacity, run),
        protocol::may_write(capacity, execution::producer_trace(run), slot),
    ensures
        is_settled(capacity, next),
        execution::producer_trace(next) == execution::producer_trace(run).push(
            ProducerStep::Write(slot, item),
        ),
        execution::consumer_trace(next) == execution::consumer_trace(run),
        execution::head_known(next) == execution::head_known(run),
{
    let entered = run.push(Event::EnterToWrite { slot });
    assert(entered.drop_last() =~= run);
    assert(execution::producer_trace(entered) == execution::producer_trace(run));
    assert(execution::consumer_trace(entered) == execution::consumer_trace(run));
    assert(execution::head_known(entered) == execution::head_known(run));
    assert(execution::taking(entered) == execution::taking(run));
    assert(execution::memory_agrees(capacity, entered));
    assert(execution::slots_are_entered(capacity, entered));
    assert(execution::writing(entered) == Some(slot));
    let next = entered.push(Event::Write { slot, item });
    assert(next.drop_last() =~= entered);
    next
}

/// A run goes on with a take, from the entry to the slot to its effect.
proof fn lemma_take<T>(capacity: nat, run: Seq<Event<T>>, slot: usize) -> (next: Seq<Event<T>>)
    requires
        is_settled(capacity, run),
        protocol::may_take(capacity, execution::consumer_trace(run), slot),
    ensures
        is_settled(capacity, next),
        execution::consumer_trace(next) == execution::consumer_trace(run).push(
            ConsumerStep::Take(slot, execution::slots(capacity, run)[slot as int]),
        ),
        execution::producer_trace(next) == execution::producer_trace(run),
        execution::tail_known(next) == execution::tail_known(run),
        execution::slots(capacity, next) == execution::slots(capacity, run).update(
            slot as int,
            None,
        ),
{
    let entered = run.push(Event::EnterToTake { slot });
    assert(entered.drop_last() =~= run);
    assert(execution::producer_trace(entered) == execution::producer_trace(run));
    assert(execution::consumer_trace(entered) == execution::consumer_trace(run));
    assert(execution::tail_known(entered) == execution::tail_known(run));
    assert(execution::slots(capacity, entered) == execution::slots(capacity, run));
    assert(execution::writing(entered) == execution::writing(run));
    assert(execution::memory_agrees(capacity, entered));
    assert(execution::slots_are_entered(capacity, entered));
    assert(execution::taking(entered) == Some(slot));
    let found = execution::slots(capacity, run)[slot as int];
    let next = entered.push(Event::Take { slot, found });
    assert(next.drop_last() =~= entered);
    next
}

/// A run goes on with writes to consecutive slots, if the rules allow them.
proof fn lemma_writes<T>(capacity: nat, run: Seq<Event<T>>, position: nat, items: Seq<T>) -> (next:
    Seq<Event<T>>)
    requires
        is_settled(capacity, run),
        protocol::producer_obeys(
            capacity,
            execution::producer_trace(run) + protocol::write_steps(capacity, position, items),
        ),
    ensures
        is_settled(capacity, next),
        execution::producer_trace(next) == execution::producer_trace(run)
            + protocol::write_steps(capacity, position, items),
        execution::consumer_trace(next) == execution::consumer_trace(run),
        execution::head_known(next) == execution::head_known(run),
    decreases items.len(),
{
    let trace = execution::producer_trace(run);
    let steps = protocol::write_steps(capacity, position, items);
    if items.len() == 0 {
        assert(trace + steps =~= trace);
        run
    } else {
        let rest = protocol::write_steps(capacity, position, items.drop_last());
        let step = steps.last();
        assert(trace + steps =~= (trace + rest).push(step));
        protocol::lemma_producer_step(capacity, trace + rest, step);
        let fewer = lemma_writes(capacity, run, position, items.drop_last());
        let slot = index::slot_of(capacity, (position + items.len() - 1) as nat);
        lemma_write(capacity, fewer, slot, items.last())
    }
}

/// A run goes on with takes from consecutive slots that hold these elements, if the
/// rules allow them.
proof fn lemma_takes<T>(capacity: nat, run: Seq<Event<T>>, position: nat, items: Seq<T>) -> (next:
    Seq<Event<T>>)
    requires
        index::is_capacity(capacity),
        is_settled(capacity, run),
        protocol::consumer_obeys(
            capacity,
            execution::consumer_trace(run) + protocol::take_steps(capacity, position, items),
        ),
        execution::slots(capacity, run).len() == capacity,
        items.len() <= capacity,
        forall|i: int|
            0 <= i < items.len() ==> execution::slots(capacity, run)[index::slot_of(
                capacity,
                (position + i) as nat,
            ) as int] == Some(#[trigger] items[i]),
    ensures
        is_settled(capacity, next),
        execution::consumer_trace(next) == execution::consumer_trace(run)
            + protocol::take_steps(capacity, position, items),
        execution::producer_trace(next) == execution::producer_trace(run),
        execution::tail_known(next) == execution::tail_known(run),
        execution::slots(capacity, next).len() == capacity,
        forall|k: nat|
            position + items.len() <= k < position + capacity ==> execution::slots(
                capacity,
                next,
            )[(#[trigger] index::slot_of(capacity, k)) as int] == execution::slots(
                capacity,
                run,
            )[index::slot_of(capacity, k) as int],
    decreases items.len(),
{
    let trace = execution::consumer_trace(run);
    let steps = protocol::take_steps(capacity, position, items);
    if items.len() == 0 {
        assert(trace + steps =~= trace);
        run
    } else {
        let few = items.drop_last();
        let rest = protocol::take_steps(capacity, position, few);
        let step = steps.last();
        assert(trace + steps =~= (trace + rest).push(step));
        protocol::lemma_consumer_step(capacity, trace + rest, step);
        assert forall|i: int| 0 <= i < few.len() implies execution::slots(capacity, run)[
        index::slot_of(capacity, (position + i) as nat) as int] == Some(#[trigger] few[i]) by {
            assert(few[i] == items[i]);
        }
        let fewer = lemma_takes(capacity, run, position, few);
        let last = (position + items.len() - 1) as nat;
        let slot = index::slot_of(capacity, last);
        assert(items[items.len() - 1] == items.last());
        let next = lemma_take(capacity, fewer, slot);
        index::lemma_slot_bound(capacity, last);
        assert forall|k: nat|
            position + items.len() <= k < position + capacity implies execution::slots(
            capacity,
            next,
        )[(#[trigger] index::slot_of(capacity, k)) as int] == execution::slots(
            capacity,
            run,
        )[index::slot_of(capacity, k) as int] by {
            index::lemma_slots_differ(capacity, last, k);
        }
        next
    }
}

/// A run goes on with a push, while the consumer rests.
pub proof fn lemma_push<T>(
    before: Producer<T>,
    after: Producer<T>,
    consumer: Consumer<T>,
    item: T,
    result: Result<(), T>,
    run: Seq<Event<T>>,
) -> (next: Seq<Event<T>>)
    requires
        laws::took_part(before, consumer, run),
        after.wf(),
        before.push_effect(after, item, result),
        queue::lets_in_producer(before, after),
        before.looks_full() ==> after.head_counter() == index::counter(
            execution::released(run),
        ),
    ensures
        laws::took_part(after, consumer, next),
        queue::queued(before, consumer).len() <= before.cap(),
        result == (if queue::queued(before, consumer).len() < before.cap() {
            Ok(())
        } else {
            Err(item)
        }),
        queue::queued(after, consumer) == (if result is Ok {
            queue::queued(before, consumer).push(item)
        } else {
            queue::queued(before, consumer)
        }),
{
    let capacity = before.cap();
    execution::lemma_balanced(capacity, run);
    let load = protocol::head_load::<T>(before.looks_full(), after.head_counter());
    let full = index::is_full(capacity, before.tail_counter(), after.head_counter());
    let loaded = if before.looks_full() {
        lemma_load_head(capacity, run)
    } else {
        run
    };
    assert(execution::producer_trace(loaded) =~= before.trace() + load);
    if result is Err && !full {
        assert(after.trace()[(before.trace() + load).len() as int] is Busy);
    }
    let next = if result is Ok {
        let steps = protocol::write_steps(capacity, before.sent().len(), seq![item]);
        let len = (before.trace() + load + steps).len();
        lemma_producer_obeyed(capacity, after.trace(), len);
        assert(after.trace().take(len as int) =~= before.trace() + load + steps);
        let written = lemma_writes(capacity, loaded, before.sent().len(), seq![item]);
        lemma_store_tail(capacity, written, after.tail_counter())
    } else {
        loaded
    };
    assert(execution::producer_trace(next) =~= after.trace());
    channel::lemma_producer_stays_connected(before, after, consumer);
    laws::push_fails_on_a_full_ring(before, after, item, result, next);
    next
}

/// A run goes on with a push of a slice, while the consumer rests.
pub proof fn lemma_push_slice<T>(
    before: Producer<T>,
    after: Producer<T>,
    consumer: Consumer<T>,
    items: Seq<T>,
    pushed: nat,
    run: Seq<Event<T>>,
) -> (next: Seq<Event<T>>)
    requires
        laws::took_part(before, consumer, run),
        after.wf(),
        before.push_slice_effect(after, items, pushed),
        queue::lets_in_producer(before, after),
        items.len() > before.room() ==> after.head_counter() == index::counter(
            execution::released(run),
        ),
    ensures
        laws::took_part(after, consumer, next),
        queue::queued(before, consumer).len() <= before.cap(),
        pushed == vstd::math::min(
            items.len() as int,
            before.cap() - queue::queued(before, consumer).len(),
        ),
        queue::queued(after, consumer) == queue::queued(before, consumer) + items.take(
            pushed as int,
        ),
{
    let capacity = before.cap();
    execution::lemma_balanced(capacity, run);
    let reloads = items.len() > before.room();
    let load = protocol::head_load::<T>(reloads, after.head_counter());
    let loaded = if reloads {
        lemma_load_head(capacity, run)
    } else {
        run
    };
    assert(execution::producer_trace(loaded) =~= before.trace() + load);
    let taken = items.take(pushed as int);
    let steps = protocol::write_steps(capacity, before.sent().len(), taken);
    let len = (before.trace() + load + steps).len();
    let room = index::room(capacity, before.tail_counter(), after.head_counter());
    if pushed < vstd::math::min(items.len() as int, room) {
        assert(after.trace()[len as int] is Busy);
    }
    lemma_producer_obeyed(capacity, after.trace(), len);
    assert(after.trace().take(len as int) =~= before.trace() + load + steps);
    let written = lemma_writes(capacity, loaded, before.sent().len(), taken);
    let next = if pushed > 0 {
        lemma_store_tail(capacity, written, after.tail_counter())
    } else {
        written
    };
    assert(execution::producer_trace(next) =~= after.trace());
    channel::lemma_producer_stays_connected(before, after, consumer);
    laws::push_slice_fills_the_ring(before, after, items, pushed, next);
    laws::elements_arrive_once_and_in_order(after, consumer, next);
    if items.len() <= before.room() {
        laws::counters_tell_how_many_are_queued(
            capacity,
            run,
            execution::head_known(run),
        );
    }
    assert(queue::queued(after, consumer) =~= queue::queued(before, consumer) + items.take(
        pushed as int,
    ));
    next
}

/// A run goes on with a pop, while the producer rests.
pub proof fn lemma_pop<T>(
    producer: Producer<T>,
    before: Consumer<T>,
    after: Consumer<T>,
    item: Option<T>,
    run: Seq<Event<T>>,
) -> (next: Seq<Event<T>>)
    requires
        laws::took_part(producer, before, run),
        after.wf(),
        before.pop_effect(after, item),
        queue::lets_in_consumer(before, after),
        before.looks_empty() ==> after.tail_counter() == index::counter(
            execution::published(run),
        ),
        !index::is_empty(after.tail_counter(), before.head_counter()) ==> item
            == execution::slots(before.cap(), run)[index::slot_of(
            before.cap(),
            before.received().len(),
        ) as int],
    ensures
        laws::took_part(producer, after, next),
        item == (if queue::queued(producer, before).len() > 0 {
            Some(queue::queued(producer, before).first())
        } else {
            None
        }),
        queue::queued(producer, after) == (if item is Some {
            queue::queued(producer, before).drop_first()
        } else {
            queue::queued(producer, before)
        }),
{
    let capacity = before.cap();
    execution::lemma_balanced(capacity, run);
    let load = protocol::tail_load::<T>(before.looks_empty(), after.tail_counter());
    let loaded = if before.looks_empty() {
        lemma_load_tail(capacity, run)
    } else {
        run
    };
    assert(execution::consumer_trace(loaded) =~= before.trace() + load);
    let taken = if index::is_empty(after.tail_counter(), before.head_counter()) {
        loaded
    } else {
        let len = (before.trace() + load).len();
        let slot = index::slot_of(capacity, before.received().len());
        let step = ConsumerStep::Take(slot, item);
        assert(after.trace()[len as int] == step);
        lemma_consumer_obeyed(capacity, after.trace(), len + 1);
        assert(after.trace().take((len + 1) as int) =~= (before.trace() + load).push(step));
        protocol::lemma_consumer_step(capacity, before.trace() + load, step);
        lemma_take(capacity, loaded, slot)
    };
    let next = if item is Some {
        lemma_store_head(capacity, taken, after.head_counter())
    } else {
        taken
    };
    assert(execution::consumer_trace(next) =~= after.trace());
    channel::lemma_consumer_stays_connected(producer, before, after);
    laws::pop_gives_the_next_element(before, after, item, next);
    if item is Some {
        assert(queue::queued(producer, after) =~= queue::queued(producer, before).drop_first());
    }
    next
}

/// The run with which a pop into a slice goes on, while the producer rests.
proof fn lemma_pop_slice_run<T>(
    producer: Producer<T>,
    before: Consumer<T>,
    after: Consumer<T>,
    out: Seq<T>,
    filled: Seq<T>,
    popped: nat,
    run: Seq<Event<T>>,
) -> (next: Seq<Event<T>>)
    requires
        laws::took_part(producer, before, run),
        after.wf(),
        before.pop_slice_effect(after, out, filled, popped),
        queue::lets_in_consumer(before, after),
        out.len() > before.available() ==> after.tail_counter() == index::counter(
            execution::published(run),
        ),
        queue::finds_what_slots_hold(before, after, filled, popped, run),
    ensures
        is_settled(before.cap(), next),
        execution::consumer_trace(next) == after.trace(),
        execution::producer_trace(next) == producer.trace(),
        execution::tail_known(next) == (if out.len() > before.available() {
            execution::published(run)
        } else {
            execution::tail_known(run)
        }),
{
    let capacity = before.cap();
    let first = before.received().len();
    let items = filled.take(popped as int);
    execution::lemma_balanced(capacity, run);
    laws::counters_tell_how_many_to_pop(capacity, run, execution::tail_known(run));
    laws::counters_tell_how_many_to_pop(capacity, run, execution::published(run));
    let reloads = out.len() > before.available();
    let load = protocol::tail_load::<T>(reloads, after.tail_counter());
    let loaded = if reloads {
        lemma_load_tail(capacity, run)
    } else {
        run
    };
    assert(execution::consumer_trace(loaded) =~= before.trace() + load);
    let wanted = vstd::math::min(
        out.len() as int,
        index::distance(after.tail_counter(), before.head_counter()),
    );
    assert forall|i: int| 0 <= i < items.len() implies execution::slots(capacity, loaded)[
    index::slot_of(capacity, (first + i) as nat) as int] == Some(#[trigger] items[i]) by {
        assert(items[i] == filled[i]);
    }
    let steps = protocol::take_steps(capacity, first, items);
    let emptied = before.trace() + load + steps;
    lemma_consumer_obeyed(capacity, after.trace(), emptied.len());
    assert(after.trace().take(emptied.len() as int) =~= emptied);
    let taken = lemma_takes(capacity, loaded, first, items);
    let stopped = if popped < wanted {
        let slot = index::slot_of(capacity, first + popped);
        let step = ConsumerStep::<T>::Take(slot, None);
        assert(after.trace()[emptied.len() as int] == step);
        lemma_consumer_obeyed(capacity, after.trace(), emptied.len() + 1);
        assert(after.trace().take((emptied.len() + 1) as int) =~= emptied.push(step));
        protocol::lemma_consumer_step(capacity, emptied, step);
        lemma_take(capacity, taken, slot)
    } else {
        taken
    };
    let next = if popped > 0 {
        lemma_store_head(capacity, stopped, after.head_counter())
    } else {
        stopped
    };
    assert(execution::consumer_trace(next) =~= after.trace());
    next
}

/// A run goes on with a pop into a slice, while the producer rests.
pub proof fn lemma_pop_slice<T>(
    producer: Producer<T>,
    before: Consumer<T>,
    after: Consumer<T>,
    out: Seq<T>,
    filled: Seq<T>,
    popped: nat,
    run: Seq<Event<T>>,
) -> (next: Seq<Event<T>>)
    requires
        laws::took_part(producer, before, run),
        after.wf(),
        before.pop_slice_effect(after, out, filled, popped),
        queue::lets_in_consumer(before, after),
        out.len() > before.available() ==> after.tail_counter() == index::counter(
            execution::published(run),
        ),
        queue::finds_what_slots_hold(before, after, filled, popped, run),
    ensures
        laws::took_part(producer, after, next),
        popped == vstd::math::min(out.len() as int, queue::queued(producer, before).len() as int),
        filled.take(popped as int) == queue::queued(producer, before).take(popped as int),
        queue::queued(producer, after) == queue::queued(producer, before).skip(popped as int),
{
    let capacity = before.cap();
    execution::lemma_balanced(capacity, run);
    laws::counters_tell_how_many_to_pop(capacity, run, execution::tail_known(run));
    let next = lemma_pop_slice_run(producer, before, after, out, filled, popped, run);
    channel::lemma_consumer_stays_connected(producer, before, after);
    laws::pop_slice_gives_the_next_elements(before, after, out, filled, popped, next);
    assert(filled.take(popped as int) =~= queue::queued(producer, before).take(popped as int));
    assert(queue::queued(producer, after) =~= queue::queued(producer, before).skip(popped as int));
    next
}

} // verus!
