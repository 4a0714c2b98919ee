//! Whole histories of calls, from a new channel on.
//!
//! The laws here speak of what was given to the calls and what came back, and of nothing
//! else: what was pushed comes out in order, and every call answers as a bounded queue
//! would that all earlier calls were made on. The calls are made one after the other, at
//! either end, and the memory answers out of the record that they leave: a counter reads
//! as it was last stored, and a slot holds what was last put there. The record leaves no
//! access out, so there is nothing else that the memory could answer with.
use vstd::prelude::*;

#[allow(unused_imports)]
use crate::consumer::Consumer;
#[allow(unused_imports)]
use crate::execution::Event;
#[allow(unused_imports)]
use crate::index;
#[allow(unused_imports)]
use crate::laws;
#[allow(unused_imports)]
use crate::producer::Producer;
#[allow(unused_imports)]
use crate::protocol;
#[allow(unused_imports)]
use crate::protocol::{ConsumerStep, ProducerStep};
#[allow(unused_imports)]
use crate::queue;

verus! {

/// A call at one of the two ends, with what it was given and what came back.
pub enum Call<T> {
    /// `push` at the producer.
    Push { item: T, result: Result<(), T> },
    /// `push_slice` at the producer.
    PushSlice { items: Seq<T>, pushed: nat },
    /// `pop` at the consumer.
    Pop { item: Option<T> },
    /// `pop_slice` at the consumer, into a slice that held `out` and then `filled`.
    PopSlice { out: Seq<T>, filled: Seq<T>, popped: nat },
    /// `len` at the producer.
    LenOfProducer { len: int },
    /// `is_empty` at the producer.
    IsEmptyOfProducer { empty: bool },
    /// `is_full` at the producer.
    IsFull { full: bool },
    /// `len` at the consumer.
    LenOfConsumer { len: int },
    /// `is_empty` at the consumer.
    IsEmptyOfConsumer { empty: bool },
}

/// The call leads from one state of the two ends to another, while the end at which it is
/// not made rests. The calls that only look read the counter that the other end stored
/// last.
pub open spec fn leads<T>(
    before: (Producer<T>, Consumer<T>),
    call: Call<T>,
    after: (Producer<T>, Consumer<T>),
) -> bool {
    let (producer, consumer) = before;
    let head = protocol::head_stored(consumer.trace());
    let tail = protocol::tail_stored(producer.trace());
    match call {
        Call::Push { item, result } => after.1 == consumer && queue::pushes_at_rest(
            producer,
            after.0,
            consumer,
            item,
            result,
        ),
        Call::PushSlice { items, pushed } => after.1 == consumer && queue::pushes_slice_at_rest(
            producer,
            after.0,
            consumer,
            items,
            pushed,
        ),
        Call::Pop { item } => after.0 == producer && queue::pops_at_rest(
            producer,
            consumer,
            after.1,
            item,
        ),
        Call::PopSlice { out, filled, popped } => after.0 == producer && queue::pops_slice_at_rest(
            producer,
            consumer,
            after.1,
            out,
            filled,
            popped,
        ),
        Call::LenOfProducer { len } => after == before && len == index::distance(
            producer.tail_counter(),
            head,
        ),
        Call::IsEmptyOfProducer { empty } => after == before && empty == index::is_empty(
            producer.tail_counter(),
            head,
        ),
        Call::IsFull { full } => after == before && full == index::is_full(
            producer.cap(),
            producer.tail_counter(),
            head,
        ),
        Call::LenOfConsumer { len } => after == before && len == index::distance(
            tail,
            consumer.head_counter(),
        ),
        Call::IsEmptyOfConsumer { empty } => after == before && empty == index::is_empty(
            tail,
            consumer.head_counter(),
        ),
    }
}

/// The calls were made one after the other on a new channel, and these are the states that
/// its ends went through.
pub open spec fn is_history<T>(
    states: Seq<(Producer<T>, Consumer<T>)>,
    calls: Seq<Call<T>>,
) -> bool {
    &&& states.len() == calls.len() + 1
    &&& laws::took_part(states[0].0, states[0].1, Seq::empty())
    &&& forall|i: int|
        0 <= i < calls.len() ==> leads(states[i], #[trigger] calls[i], states[i + 1])
}

/// All that was given to the calls and not handed back, in order.
pub open spec fn pushed<T>(calls: Seq<Call<T>>) -> Seq<T>
    decreases calls.len(),
{
    if calls.len() == 0 {
        Seq::empty()
    } else {
        let earlier = pushed(calls.drop_last());
        match calls.last() {
            Call::Push { item, result } => if result is Ok {
                earlier.push(item)
            } else {
                earlier
            },
            Call::PushSlice { items, pushed } => earlier + items.take(pushed as int),
            _ => earlier,
        }
    }
}

/// All that came out of the calls, in order.
pub open spec fn popped<T>(calls: Seq<Call<T>>) -> Seq<T>
    decreases calls.len(),
{
    if calls.len() == 0 {
        Seq::empty()
    } else {
        let earlier = popped(calls.drop_last());
        match calls.last() {
            Call::Pop { item } => match item {
                Some(item) => earlier.push(item),
                None => earlier,
            },
            Call::PopSlice { filled, popped, .. } => earlier + filled.take(popped as int),
            _ => earlier,
        }
    }
}

/// What was pushed in these calls and not popped.
pub open spec fn waiting<T>(calls: Seq<Call<T>>) -> Seq<T> {
    pushed(calls).skip(popped(calls).len() as int)
}

/// A producer's counter is the one that it stored last.
pub proof fn the_tail_stands_as_last_stored<T>(producer: Producer<T>)
    requires
        producer.wf(),
    ensures
        producer.tail_counter() == protocol::tail_stored(producer.trace()),
{
    lemma_tail_stored(producer.cap(), producer.trace());
}

/// A consumer's counter is the one that it stored last.
pub proof fn the_head_stands_as_last_stored<T>(consumer: Consumer<T>)
    requires
        consumer.wf(),
    ensures
        consumer.head_counter() == protocol::head_stored(consumer.trace()),
{
    lemma_head_stored(consumer.cap(), consumer.trace());
}

/// What was stored last is the counter of all that is published.
proof fn lemma_tail_stored<T>(capacity: nat, trace: Seq<ProducerStep<T>>)
    requires
        protocol::producer_obeys(capacity, trace),
    ensures
        protocol::tail_stored(trace) == index::counter(protocol::published(trace)),
    decreases trace.len(),
{
    if trace.len() == 0 {
        index::lemma_start();
    } else {
        lemma_tail_stored(capacity, trace.drop_last());
    }
}

/// What was stored last is the counter of all that is released.
proof fn lemma_head_stored<T>(capacity: nat, trace: Seq<ConsumerStep<T>>)
    requires
        protocol::consumer_obeys(capacity, trace),
    ensures
        protocol::head_stored(trace) == index::counter(protocol::released(trace)),
    decreases trace.len(),
{
    if trace.len() == 0 {
        index::lemma_start();
    } else {
        lemma_head_stored(capacity, trace.drop_last());
    }
}

/// After each call both ends are at rest, and they have sent and received what the calls
/// say.
proof fn lemma_history<T>(states: Seq<(Producer<T>, Consumer<T>)>, calls: Seq<Call<T>>, n: nat)
    requires
        is_history(states, calls),
        n <= calls.len(),
    ensures
        queue::at_rest(states[n as int].0, states[n as int].1),
        states[n as int].0.wf(),
        states[n as int].1.wf(),
        states[n as int].0.cap() == states[0].0.cap(),
        states[n as int].0.sent() == pushed(calls.take(n as int)),
        states[n as int].1.received() == popped(calls.take(n as int)),
    decreases n,
{
    if n == 0 {
        queue::a_new_channel_is_at_rest(states[0].0, states[0].1);
        assert(states[0].0.sent() =~= pushed(calls.take(0)));
        assert(states[0].1.received() =~= popped(calls.take(0)));
    } else {
        let m = n - 1;
        lemma_history(states, calls, m as nat);
        let (producer, consumer) = states[m];
        let after = states[m + 1];
        assert(leads(states[m], calls[m], states[m + 1]));
        assert(calls.take(n as int).drop_last() =~= calls.take(m));
        match calls[m] {
            Call::Push { item, result } => {
                queue::push_appends(producer, after.0, consumer, item, result);
                assert(after.0.sent() =~= pushed(calls.take(n as int)));
            },
            Call::PushSlice { items, pushed } => {
                queue::push_slice_appends(producer, after.0, consumer, items, pushed);
            },
            Call::Pop { item } => {
                queue::pop_removes_the_first(producer, consumer, after.1, item);
                assert(after.1.received() =~= popped(calls.take(n as int)));
            },
            Call::PopSlice { out, filled, popped } => {
                queue::pop_slice_removes_the_first(
                    producer,
                    consumer,
                    after.1,
                    out,
                    filled,
                    popped,
                );
            },
            _ => {},
        }
    }
}

/// What comes out of a channel is what was put into it, in the same order: whatever calls
/// were made, the elements popped are the first of the elements pushed, and no more than
/// the capacity are pushed and not popped.
pub proof fn what_is_popped_was_pushed_in_order<T>(
    states: Seq<(Producer<T>, Consumer<T>)>,
    calls: Seq<Call<T>>,
)
    requires
        is_history(states, calls),
    ensures
        popped(calls).len() <= pushed(calls).len() <= popped(calls).len() + states[0].0.cap(),
        popped(calls) == pushed(calls).take(popped(calls).len() as int),
        pushed(calls) == popped(calls) + waiting(calls),
        waiting(calls).len() == pushed(calls).len() - popped(calls).len(),
{
    let n = calls.len();
    lemma_history(states, calls, n);
    assert(calls.take(n as int) =~= calls);
    let (producer, consumer) = states[n as int];
    let run = choose|run: Seq<Event<T>>| #[trigger]
        laws::took_part(producer, consumer, run);
    laws::elements_arrive_once_and_in_order(producer, consumer, run);
    assert(pushed(calls) =~= popped(calls) + waiting(calls));
}

/// A pop gives the oldest element that was pushed and not popped before it, and nothing if
/// and only if there is none.
pub proof fn pop_gives_the_oldest_waiting<T>(
    states: Seq<(Producer<T>, Consumer<T>)>,
    calls: Seq<Call<T>>,
    i: int,
    item: Option<T>,
)
    requires
        is_history(states, calls),
        0 <= i < calls.len(),
        calls[i] == (Call::Pop { item }),
    ensures
        item == (if waiting(calls.take(i)).len() > 0 {
            Some(waiting(calls.take(i))[0])
        } else {
            None
        }),
{
    lemma_history(states, calls, i as nat);
    assert(leads(states[i], calls[i], states[i + 1]));
    queue::pop_removes_the_first(states[i].0, states[i].1, states[i + 1].1, item);
}

/// A pop into a slice gives the oldest elements that were pushed and not popped before it,
/// as many as there are and fit, and leaves the rest of the slice as it is.
pub proof fn pop_slice_gives_all_that_wait_and_fit<T>(
    states: Seq<(Producer<T>, Consumer<T>)>,
    calls: Seq<Call<T>>,
    i: int,
    out: Seq<T>,
    filled: Seq<T>,
    popped: nat,
)
    requires
        is_history(states, calls),
        0 <= i < calls.len(),
        calls[i] == (Call::PopSlice { out, filled, popped }),
    ensures
        popped == vstd::math::min(out.len() as int, waiting(calls.take(i)).len() as int),
        filled == waiting(calls.take(i)).take(popped as int) + out.skip(popped as int),
{
    lemma_history(states, calls, i as nat);
    assert(leads(states[i], calls[i], states[i + 1]));
    queue::pop_slice_removes_the_first(
        states[i].0,
        states[i].1,
        states[i + 1].1,
        out,
        filled,
        popped,
    );
    assert(filled =~= filled.take(popped as int) + filled.skip(popped as int));
}

/// A push is taken if and only if fewer elements were pushed and not popped before it than
/// the capacity, and otherwise it is handed back.
pub proof fn push_is_taken_while_fewer_wait_than_fit<T>(
    states: Seq<(Producer<T>, Consumer<T>)>,
    calls: Seq<Call<T>>,
    i: int,
    item: T,
    result: Result<(), T>,
)
    requires
        is_history(states, calls),
        0 <= i < calls.len(),
        calls[i] == (Call::Push { item, result }),
    ensures
        result == (if waiting(calls.take(i)).len() < states[0].0.cap() {
            Ok(())
        } else {
            Err(item)
        }),
{
    lemma_history(states, calls, i as nat);
    assert(leads(states[i], calls[i], states[i + 1]));
    queue::push_appends(states[i].0, states[i + 1].0, states[i].1, item, result);
}

/// A push of a slice takes as many elements as fit beside those pushed and not popped
/// before it.
pub proof fn push_slice_takes_all_that_fit<T>(
    states: Seq<(Producer<T>, Consumer<T>)>,
    calls: Seq<Call<T>>,
    i: int,
    items: Seq<T>,
    pushed: nat,
)
    requires
        is_history(states, calls),
        0 <= i < calls.len(),
        calls[i] == (Call::PushSlice { items, pushed }),
    ensures
        pushed == vstd::math::min(
            items.len() as int,
            states[0].0.cap() - waiting(calls.take(i)).len(),
        ),
{
    lemma_history(states, calls, i as nat);
    assert(leads(states[i], calls[i], states[i + 1]));
    queue::push_slice_appends(states[i].0, states[i + 1].0, states[i].1, items, pushed);
}

/// What a look tells is the number of elements pushed less the number popped before it, at
/// either end, and it changes nothing.
pub proof fn len_counts_pushed_less_popped<T>(
    states: Seq<(Producer<T>, Consumer<T>)>,
    calls: Seq<Call<T>>,
    i: int,
)
    requires
        is_history(states, calls),
        0 <= i < calls.len(),
    ensures
        ({
            let count = pushed(calls.take(i)).len() - popped(calls.take(i)).len();
            match calls[i] {
                Call::LenOfProducer { len } => len == count && states[i + 1] == states[i],
                Call::LenOfConsumer { len } => len == count && states[i + 1] == states[i],
                Call::IsEmptyOfProducer { empty } => empty == (count == 0) && states[i + 1]
                    == states[i],
                Call::IsEmptyOfConsumer { empty } => empty == (count == 0) && states[i + 1]
                    == states[i],
                Call::IsFull { full } => full == (count == states[0].0.cap()) && states[i + 1]
                    == states[i],
                _ => true,
            }
        }),
{
    let (producer, consumer) = states[i];
    lemma_history(states, calls, i as nat);
    assert(leads(states[i], calls[i], states[i + 1]));
    the_tail_stands_as_last_stored(producer);
    the_head_stands_as_last_stored(consumer);
    queue::len_is_that_of_the_queue(
        producer,
        consumer,
        consumer.head_counter(),
        producer.tail_counter(),
    );
}

/// A new channel holds nothing: before anything is pushed, each look at either end tells of
/// no element, and each pop gives none.
pub proof fn a_new_channel_holds_nothing<T>(
    states: Seq<(Producer<T>, Consumer<T>)>,
    calls: Seq<Call<T>>,
    i: int,
)
    requires
        is_history(states, calls),
        0 <= i < calls.len(),
        pushed(calls.take(i)).len() == 0,
    ensures
        match calls[i] {
            Call::LenOfProducer { len } => len == 0,
            Call::LenOfConsumer { len } => len == 0,
            Call::IsEmptyOfProducer { empty } => empty,
            Call::IsEmptyOfConsumer { empty } => empty,
            Call::IsFull { full } => !full,
            Call::Pop { item } => item is None,
            Call::PopSlice { popped, .. } => popped == 0,
            _ => true,
        },
{
    lemma_history(states, calls, i as nat);
    lemma_beginning(states, calls, i as nat);
    what_is_popped_was_pushed_in_order(states.take(i + 1), calls.take(i));
    len_counts_pushed_less_popped(states, calls, i);
    index::lemma_capacity(states[i].0.cap());
    match calls[i] {
        Call::Pop { item } => {
            pop_gives_the_oldest_waiting(states, calls, i, item);
        },
        Call::PopSlice { out, filled, popped } => {
            pop_slice_gives_all_that_wait_and_fit(states, calls, i, out, filled, popped);
        },
        _ => {},
    }
}

/// A beginning of a history is a history.
proof fn lemma_beginning<T>(states: Seq<(Producer<T>, Consumer<T>)>, calls: Seq<Call<T>>, n: nat)
    requires
        is_history(states, calls),
        n <= calls.len(),
    ensures
        is_history(states.take(n as int + 1), calls.take(n as int)),
{
    assert forall|i: int| 0 <= i < n implies leads(
        states.take(n as int + 1)[i],
        #[trigger] calls.take(n as int)[i],
        states.take(n as int + 1)[i + 1],
    ) by {
        assert(leads(states[i], calls[i], states[i + 1]));
    }
}

} // verus!
