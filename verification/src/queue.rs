//! The ring as a queue.
//!
//! While the other endpoint is at rest, a load reads the counter as it stands, no slot
//! is refused, and a slot holds what was last put there. Under these conditions the
//! laws of the ring come down to those of a bounded first-in, first-out queue: a call
//! succeeds exactly when the queue has room, or an element.
use vstd::prelude::*;

#[allow(unused_imports)]
use crate::consumer::Consumer;
#[allow(unused_imports)]
use crate::execution;
#[allow(unused_imports)]
use crate::execution::Event;
#[allow(unused_imports)]
use crate::index;
#[allow(unused_imports)]
use crate::laws;
#[allow(unused_imports)]
use crate::producer::Producer;
#[allow(unused_imports)]
use crate::resting;

verus! {

/// The elements in the queue, oldest first.
pub open spec fn queued<T>(producer: Producer<T>, consumer: Consumer<T>) -> Seq<T> {
    producer.sent().skip(consumer.received().len() as int)
}

/// No slot was refused to the producer between these two states.
pub open spec fn lets_in_producer<T>(before: Producer<T>, after: Producer<T>) -> bool {
    forall|i: int|
        before.trace().len() <= i < after.trace().len() ==> !(#[trigger] after.trace()[i] is Busy)
}

/// No slot was refused to the consumer between these two states.
pub open spec fn lets_in_consumer<T>(before: Consumer<T>, after: Consumer<T>) -> bool {
    forall|i: int|
        before.trace().len() <= i < after.trace().len() ==> !(#[trigger] after.trace()[i] is Busy)
}

/// A pop into a slice between these two states found in the slots what they hold after
/// this run.
pub open spec fn finds_what_slots_hold<T>(
    before: Consumer<T>,
    after: Consumer<T>,
    filled: Seq<T>,
    popped: nat,
    run: Seq<Event<T>>,
) -> bool {
    let held = execution::slots(before.cap(), run);
    let first = before.received().len();
    let known = index::distance(after.tail_counter(), before.head_counter());
    &&& forall|i: int|
        0 <= i < popped ==> held[index::slot_of(before.cap(), (first + i) as nat) as int] == Some(
            #[trigger] filled[i],
        )
    &&& popped < vstd::math::min(filled.len() as int, known) ==> held[index::slot_of(
        before.cap(),
        first + popped,
    ) as int] == None::<T>
}

/// Both endpoints are at rest, after a run in which nobody else took part.
pub open spec fn at_rest<T>(producer: Producer<T>, consumer: Consumer<T>) -> bool {
    exists|run: Seq<Event<T>>| #[trigger] laws::took_part(producer, consumer, run)
}

/// A push was made while the consumer rests: no slot was refused, and the load, if there
/// was one, read the consumer's counter as it stands.
pub open spec fn pushes_at_rest<T>(
    before: Producer<T>,
    after: Producer<T>,
    consumer: Consumer<T>,
    item: T,
    result: Result<(), T>,
) -> bool {
    &&& at_rest(before, consumer)
    &&& after.wf()
    &&& before.push_effect(after, item, result)
    &&& lets_in_producer(before, after)
    &&& before.looks_full() ==> after.head_counter() == consumer.head_counter()
}

/// A push of a slice was made while the consumer rests: no slot was refused, and the
/// load, if there was one, read the consumer's counter as it stands.
pub open spec fn pushes_slice_at_rest<T>(
    before: Producer<T>,
    after: Producer<T>,
    consumer: Consumer<T>,
    items: Seq<T>,
    pushed: nat,
) -> bool {
    &&& at_rest(before, consumer)
    &&& after.wf()
    &&& before.push_slice_effect(after, items, pushed)
    &&& lets_in_producer(before, after)
    &&& items.len() > before.room() ==> after.head_counter() == consumer.head_counter()
}

/// A pop was made while the producer rests: no slot was refused, the load, if there was
/// one, read the producer's counter as it stands, and the slot, if one was emptied, held
/// what was last put there.
pub open spec fn pops_at_rest<T>(
    producer: Producer<T>,
    before: Consumer<T>,
    after: Consumer<T>,
    item: Option<T>,
) -> bool {
    &&& after.wf()
    &&& before.pop_effect(after, item)
    &&& lets_in_consumer(before, after)
    &&& before.looks_empty() ==> after.tail_counter() == producer.tail_counter()
    &&& exists|run: Seq<Event<T>>| #[trigger]
        laws::took_part(producer, before, run) && (!index::is_empty(
            after.tail_counter(),
            before.head_counter(),
        ) ==> item == execution::slots(before.cap(), run)[index::slot_of(
            before.cap(),
            before.received().len(),
        ) as int])
}

/// A pop into a slice was made while the producer rests: no slot was refused, the load,
/// if there was one, read the producer's counter as it stands, and the slots held what
/// was last put there.
pub open spec fn pops_slice_at_rest<T>(
    producer: Producer<T>,
    before: Consumer<T>,
    after: Consumer<T>,
    out: Seq<T>,
    filled: Seq<T>,
    popped: nat,
) -> bool {
    &&& after.wf()
    &&& before.pop_slice_effect(after, out, filled, popped)
    &&& lets_in_consumer(before, after)
    &&& out.len() > before.available() ==> after.tail_counter() == producer.tail_counter()
    &&& exists|run: Seq<Event<T>>| #[trigger]
        laws::took_part(producer, before, run) && finds_what_slots_hold(
            before,
            after,
            filled,
            popped,
            run,
        )
}

/// A new channel is at rest, and its queue is empty.
pub proof fn a_new_channel_is_at_rest<T>(producer: Producer<T>, consumer: Consumer<T>)
    requires
        laws::took_part(producer, consumer, Seq::empty()),
    ensures
        at_rest(producer, consumer),
        queued(producer, consumer) == Seq::<T>::empty(),
{
    assert(producer.sent() =~= Seq::<T>::empty());
    assert(queued(producer, consumer) =~= Seq::<T>::empty());
}

/// While the consumer rests, a push succeeds if and only if the queue holds fewer
/// elements than the capacity, and then the element is the last in the queue;
/// otherwise it comes back and the queue stays as it is.
pub proof fn push_appends<T>(
    before: Producer<T>,
    after: Producer<T>,
    consumer: Consumer<T>,
    item: T,
    result: Result<(), T>,
)
    requires
        pushes_at_rest(before, after, consumer, item, result),
    ensures
        at_rest(after, consumer),
        after.cap() == before.cap(),
        queued(before, consumer).len() <= before.cap(),
        result == (if queued(before, consumer).len() < before.cap() {
            Ok(())
        } else {
            Err(item)
        }),
        queued(after, consumer) == (if result is Ok {
            queued(before, consumer).push(item)
        } else {
            queued(before, consumer)
        }),
{
    let run = choose|run: Seq<Event<T>>| #[trigger] laws::took_part(before, consumer, run);
    let next = resting::lemma_push(before, after, consumer, item, result, run);
    assert(laws::took_part(after, consumer, next));
}

/// While the consumer rests, a push of a slice appends as many elements as the queue
/// has room for.
pub proof fn push_slice_appends<T>(
    before: Producer<T>,
    after: Producer<T>,
    consumer: Consumer<T>,
    items: Seq<T>,
    pushed: nat,
)
    requires
        pushes_slice_at_rest(before, after, consumer, items, pushed),
    ensures
        at_rest(after, consumer),
        after.cap() == before.cap(),
        queued(before, consumer).len() <= before.cap(),
        pushed == vstd::math::min(
            items.len() as int,
            before.cap() - queued(before, consumer).len(),
        ),
        queued(after, consumer) == queued(before, consumer) + items.take(pushed as int),
{
    let run = choose|run: Seq<Event<T>>| #[trigger] laws::took_part(before, consumer, run);
    let next = resting::lemma_push_slice(before, after, consumer, items, pushed, run);
    assert(laws::took_part(after, consumer, next));
}

/// While the producer rests, a pop gives the first element of the queue, if there is
/// one, and the others stay.
pub proof fn pop_removes_the_first<T>(
    producer: Producer<T>,
    before: Consumer<T>,
    after: Consumer<T>,
    item: Option<T>,
)
    requires
        pops_at_rest(producer, before, after, item),
    ensures
        at_rest(producer, after),
        after.cap() == before.cap(),
        item == (if queued(producer, before).len() > 0 {
            Some(queued(producer, before).first())
        } else {
            None
        }),
        queued(producer, after) == (if item is Some {
            queued(producer, before).drop_first()
        } else {
            queued(producer, before)
        }),
{
    let run = choose|run: Seq<Event<T>>| #[trigger]
        laws::took_part(producer, before, run) && (!index::is_empty(
            after.tail_counter(),
            before.head_counter(),
        ) ==> item == execution::slots(before.cap(), run)[index::slot_of(
            before.cap(),
            before.received().len(),
        ) as int]);
    let next = resting::lemma_pop(producer, before, after, item, run);
    assert(laws::took_part(producer, after, next));
}

/// While the producer rests, a pop into a slice gives the first elements of the
/// queue, as many as there are and fit, and the others stay.
pub proof fn pop_slice_removes_the_first<T>(
    producer: Producer<T>,
    before: Consumer<T>,
    after: Consumer<T>,
    out: Seq<T>,
    filled: Seq<T>,
    popped: nat,
)
    requires
        pops_slice_at_rest(producer, before, after, out, filled, popped),
    ensures
        at_rest(producer, after),
        after.cap() == before.cap(),
        popped == vstd::math::min(out.len() as int, queued(producer, before).len() as int),
        filled.take(popped as int) == queued(producer, before).take(popped as int),
        queued(producer, after) == queued(producer, before).skip(popped as int),
{
    let run = choose|run: Seq<Event<T>>| #[trigger]
        laws::took_part(producer, before, run) && finds_what_slots_hold(
            before,
            after,
            filled,
            popped,
            run,
        );
    let next = resting::lemma_pop_slice(producer, before, after, out, filled, popped, run);
    assert(laws::took_part(producer, after, next));
}

/// While both endpoints rest, the difference of their counters is the length of the
/// queue. This is what `len` of either end gives, where it reads the other's counter as
/// it stands: the two agree, the length is that of the queue, and it is at most the
/// capacity. So `is_empty` and `is_full` tell of the queue as well.
pub proof fn len_is_that_of_the_queue<T>(
    producer: Producer<T>,
    consumer: Consumer<T>,
    head: usize,
    tail: usize,
)
    requires
        at_rest(producer, consumer),
        head == consumer.head_counter(),
        tail == producer.tail_counter(),
    ensures
        ({
            let q = queued(producer, consumer);
            &&& index::distance(producer.tail_counter(), head) == q.len()
            &&& index::distance(tail, consumer.head_counter()) == q.len()
            &&& q.len() == producer.sent().len() - consumer.received().len()
            &&& q.len() <= producer.cap()
            &&& index::is_empty(producer.tail_counter(), head) <==> q.len() == 0
            &&& index::is_empty(tail, consumer.head_counter()) <==> q.len() == 0
            &&& index::is_full(producer.cap(), producer.tail_counter(), head) <==> q.len()
                == producer.cap()
        }),
{
    let run = choose|run: Seq<Event<T>>| #[trigger] laws::took_part(producer, consumer, run);
    execution::lemma_balanced(producer.cap(), run);
    laws::counters_tell_how_many_are_queued(producer.cap(), run, execution::released(run));
}

/// While the consumer rests, `is_full` is true if and only if the next push hands its
/// element back, and if and only if `len` is the capacity.
pub proof fn is_full_tells_of_the_next_push<T>(
    before: Producer<T>,
    after: Producer<T>,
    consumer: Consumer<T>,
    item: T,
    result: Result<(), T>,
    head: usize,
    full: bool,
    len: int,
)
    requires
        pushes_at_rest(before, after, consumer, item, result),
        head == consumer.head_counter(),
        full == index::is_full(before.cap(), before.tail_counter(), head),
        len == index::distance(before.tail_counter(), head),
    ensures
        full <==> result == Err::<(), T>(item),
        full <==> len == before.cap(),
{
    push_appends(before, after, consumer, item, result);
    len_is_that_of_the_queue(before, consumer, head, before.tail_counter());
}

/// While the producer rests, `is_empty` of the consumer is true if and only if the next
/// pop gives nothing, and if and only if `len` is zero.
pub proof fn is_empty_tells_of_the_next_pop<T>(
    producer: Producer<T>,
    before: Consumer<T>,
    after: Consumer<T>,
    item: Option<T>,
    tail: usize,
    empty: bool,
    len: int,
)
    requires
        pops_at_rest(producer, before, after, item),
        tail == producer.tail_counter(),
        empty == index::is_empty(tail, before.head_counter()),
        len == index::distance(tail, before.head_counter()),
    ensures
        empty <==> item is None,
        empty <==> len == 0,
{
    pop_removes_the_first(producer, before, after, item);
    len_is_that_of_the_queue(producer, before, before.head_counter(), tail);
}

/// What is pushed onto an empty ring comes out of it with the next pop, wherever the
/// counters stand, and the ring is empty again.
pub proof fn an_element_makes_the_round_trip<T>(
    before: Producer<T>,
    after: Producer<T>,
    consumer: Consumer<T>,
    popped: Consumer<T>,
    sent: T,
    result: Result<(), T>,
    item: Option<T>,
)
    requires
        queued(before, consumer).len() == 0,
        pushes_at_rest(before, after, consumer, sent, result),
        pops_at_rest(after, consumer, popped, item),
    ensures
        result == Ok::<(), T>(()),
        item == Some(sent),
        queued(after, popped).len() == 0,
        at_rest(after, popped),
{
    push_appends(before, after, consumer, sent, result);
    pop_removes_the_first(after, consumer, popped, item);
    index::lemma_capacity(before.cap());
}

/// What is pushed as a slice onto an empty ring comes out of it with the next pop into a
/// slice that is long enough, wherever the counters stand, and the ring is empty again.
pub proof fn a_slice_makes_the_round_trip<T>(
    before: Producer<T>,
    after: Producer<T>,
    consumer: Consumer<T>,
    emptied: Consumer<T>,
    items: Seq<T>,
    pushed: nat,
    out: Seq<T>,
    filled: Seq<T>,
    popped: nat,
)
    requires
        queued(before, consumer).len() == 0,
        pushes_slice_at_rest(before, after, consumer, items, pushed),
        pops_slice_at_rest(after, consumer, emptied, out, filled, popped),
        out.len() >= pushed,
    ensures
        popped == pushed,
        pushed == vstd::math::min(items.len() as int, before.cap() as int),
        filled.take(popped as int) == items.take(pushed as int),
        queued(after, emptied).len() == 0,
        at_rest(after, emptied),
{
    push_slice_appends(before, after, consumer, items, pushed);
    pop_slice_removes_the_first(after, consumer, emptied, out, filled, popped);
    assert(queued(after, consumer) =~= items.take(pushed as int));
    assert(queued(after, consumer).take(popped as int) =~= items.take(pushed as int));
}

/// While the consumer rests, two slices pushed one after the other come to the same as
/// their concatenation pushed at once, onto a ring with the same capacity and queue.
pub proof fn two_slices_push_like_one<T>(
    first: Producer<T>,
    second: Producer<T>,
    third: Producer<T>,
    consumer: Consumer<T>,
    a: Seq<T>,
    b: Seq<T>,
    pushed_a: nat,
    pushed_b: nat,
    before: Producer<T>,
    after: Producer<T>,
    other: Consumer<T>,
    pushed: nat,
)
    requires
        pushes_slice_at_rest(first, second, consumer, a, pushed_a),
        pushes_slice_at_rest(second, third, consumer, b, pushed_b),
        pushes_slice_at_rest(before, after, other, a + b, pushed),
        first.cap() == before.cap(),
        queued(first, consumer) == queued(before, other),
    ensures
        pushed_a + pushed_b == pushed,
        queued(third, consumer) == queued(after, other),
{
    push_slice_appends(first, second, consumer, a, pushed_a);
    push_slice_appends(second, third, consumer, b, pushed_b);
    push_slice_appends(before, after, other, a + b, pushed);
    assert(a.take(pushed_a as int) + b.take(pushed_b as int) =~= (a + b).take(pushed as int));
    assert(queued(third, consumer) =~= queued(after, other));
}

/// A series of pushes while the consumer rests, of the elements of a slice in order,
/// which ends with the first that fails or with the slice.
pub open spec fn pushes_one_by_one<T>(
    states: Seq<Producer<T>>,
    consumer: Consumer<T>,
    items: Seq<T>,
    results: Seq<Result<(), T>>,
) -> bool {
    &&& states.len() == results.len() + 1
    &&& results.len() <= items.len()
    &&& at_rest(states[0], consumer)
    &&& forall|i: int|
        0 <= i < results.len() ==> pushes_at_rest(
            states[i],
            states[i + 1],
            consumer,
            items[i],
            #[trigger] results[i],
        )
    &&& forall|i: int| 0 <= i < results.len() - 1 ==> #[trigger] results[i] is Ok
    &&& results.len() < items.len() ==> results.len() > 0 && results.last() is Err
}

/// How many of these results are a success.
pub open spec fn successes<T>(results: Seq<Result<(), T>>) -> nat
    decreases results.len(),
{
    if results.len() == 0 {
        0
    } else {
        successes(results.drop_last()) + if results.last() is Ok {
            1nat
        } else {
            0nat
        }
    }
}

/// As long as all pushes of a series succeed, the queue grows by the elements pushed.
proof fn lemma_pushes_one_by_one<T>(
    states: Seq<Producer<T>>,
    consumer: Consumer<T>,
    items: Seq<T>,
    results: Seq<Result<(), T>>,
    n: nat,
)
    requires
        pushes_one_by_one(states, consumer, items, results),
        n <= results.len(),
        forall|i: int| 0 <= i < n ==> #[trigger] results[i] is Ok,
    ensures
        states[n as int].cap() == states[0].cap(),
        queued(states[n as int], consumer) == queued(states[0], consumer) + items.take(n as int),
        successes(results.take(n as int)) == n,
    decreases n,
{
    if n == 0 {
        assert(queued(states[0], consumer) =~= queued(states[0], consumer) + items.take(0));
    } else {
        let m = n - 1;
        lemma_pushes_one_by_one(states, consumer, items, results, m as nat);
        assert(results[m] is Ok);
        push_appends(states[m], states[m + 1], consumer, items[m], results[m]);
        assert(items.take(n as int) =~= items.take(m).push(items[m]));
        assert(results.take(n as int).drop_last() =~= results.take(m));
        assert(queued(states[n as int], consumer) =~= queued(states[0], consumer) + items.take(
            n as int,
        ));
    }
}

/// While the consumer rests, a push of a slice comes to the same as pushing its elements
/// one by one until one fails, onto a ring with the same capacity and queue: as many are
/// pushed, and the queue is the same.
pub proof fn a_slice_pushes_like_its_elements<T>(
    before: Producer<T>,
    after: Producer<T>,
    consumer: Consumer<T>,
    items: Seq<T>,
    pushed: nat,
    states: Seq<Producer<T>>,
    other: Consumer<T>,
    results: Seq<Result<(), T>>,
)
    requires
        pushes_slice_at_rest(before, after, consumer, items, pushed),
        pushes_one_by_one(states, other, items, results),
        before.cap() == states[0].cap(),
        queued(before, consumer) == queued(states[0], other),
    ensures
        pushed == successes(results),
        queued(after, consumer) == queued(states.last(), other),
{
    push_slice_appends(before, after, consumer, items, pushed);
    let n = results.len();
    assert(results.take(n as int) =~= results);
    if n > 0 && results.last() is Err {
        let m = n - 1;
        lemma_pushes_one_by_one(states, other, items, results, m as nat);
        assert(results[m] is Err);
        push_appends(states[m], states[m + 1], other, items[m], results[m]);
        assert(results.drop_last() =~= results.take(m));
    } else {
        assert forall|i: int| 0 <= i < n implies #[trigger] results[i] is Ok by {
            assert(i == n - 1 ==> results[i] == results.last());
        }
        lemma_pushes_one_by_one(states, other, items, results, n);
        if n > 0 {
            let m = n - 1;
            lemma_pushes_one_by_one(states, other, items, results, m as nat);
            push_appends(states[m], states[m + 1], other, items[m], results[m]);
        }
    }
}

/// A series of pops while the producer rests, at most as many as `most`, which ends with
/// the first that gives nothing or with the last that is allowed.
pub open spec fn pops_one_by_one<T>(
    producer: Producer<T>,
    states: Seq<Consumer<T>>,
    most: nat,
    results: Seq<Option<T>>,
) -> bool {
    &&& states.len() == results.len() + 1
    &&& results.len() <= most
    &&& at_rest(producer, states[0])
    &&& forall|i: int|
        0 <= i < results.len() ==> pops_at_rest(
            producer,
            states[i],
            states[i + 1],
            #[trigger] results[i],
        )
    &&& forall|i: int| 0 <= i < results.len() - 1 ==> #[trigger] results[i] is Some
    &&& results.len() < most ==> results.len() > 0 && results.last() is None
}

/// The elements that these results give, in order.
pub open spec fn elements<T>(results: Seq<Option<T>>) -> Seq<T>
    decreases results.len(),
{
    if results.len() == 0 {
        Seq::empty()
    } else {
        match results.last() {
            Some(item) => elements(results.drop_last()).push(item),
            None => elements(results.drop_last()),
        }
    }
}

/// As long as all pops of a series give an element, they give the first of the queue.
proof fn lemma_pops_one_by_one<T>(
    producer: Producer<T>,
    states: Seq<Consumer<T>>,
    most: nat,
    results: Seq<Option<T>>,
    n: nat,
)
    requires
        pops_one_by_one(producer, states, most, results),
        n <= results.len(),
        forall|i: int| 0 <= i < n ==> #[trigger] results[i] is Some,
    ensures
        n <= queued(producer, states[0]).len(),
        queued(producer, states[n as int]) == queued(producer, states[0]).skip(n as int),
        elements(results.take(n as int)) == queued(producer, states[0]).take(n as int),
    decreases n,
{
    let q = queued(producer, states[0]);
    if n == 0 {
        assert(q.skip(0) =~= q);
        assert(q.take(0) =~= Seq::<T>::empty());
    } else {
        let m = n - 1;
        lemma_pops_one_by_one(producer, states, most, results, m as nat);
        assert(results[m] is Some);
        pop_removes_the_first(producer, states[m], states[m + 1], results[m]);
        assert(results.take(n as int).drop_last() =~= results.take(m));
        assert(q.take(n as int) =~= q.take(m).push(q[m]));
        assert(queued(producer, states[n as int]) =~= q.skip(n as int));
    }
}

/// While the producer rests, a pop into a slice comes to the same as popping one by one,
/// as often as the slice is long or until nothing comes, off a ring with the same queue:
/// the same elements come out, and the queue is the same.
pub proof fn a_slice_pops_like_its_elements<T>(
    producer: Producer<T>,
    before: Consumer<T>,
    after: Consumer<T>,
    out: Seq<T>,
    filled: Seq<T>,
    popped: nat,
    other: Producer<T>,
    states: Seq<Consumer<T>>,
    results: Seq<Option<T>>,
)
    requires
        pops_slice_at_rest(producer, before, after, out, filled, popped),
        pops_one_by_one(other, states, out.len(), results),
        queued(producer, before) == queued(other, states[0]),
    ensures
        popped == elements(results).len(),
        filled.take(popped as int) == elements(results),
        queued(producer, after) == queued(other, states.last()),
{
    pop_slice_removes_the_first(producer, before, after, out, filled, popped);
    let n = results.len();
    assert(results.take(n as int) =~= results);
    if n > 0 && results.last() is None {
        let m = n - 1;
        lemma_pops_one_by_one(other, states, out.len(), results, m as nat);
        assert(results[m] is None);
        pop_removes_the_first(other, states[m], states[m + 1], results[m]);
        assert(results.drop_last() =~= results.take(m));
    } else {
        assert forall|i: int| 0 <= i < n implies #[trigger] results[i] is Some by {
            assert(i == n - 1 ==> results[i] == results.last());
        }
        lemma_pops_one_by_one(other, states, out.len(), results, n);
    }
}

/// When both ends are gone, the ring is torn down: the slots between the two counters are
/// vacated in order. These are exactly the slots that hold an element, each once, and what
/// they hold is the queue, oldest first. So each element that was sent was either received
/// or is dropped with the ring.
pub proof fn what_is_left_lies_between_the_counters<T>(
    producer: Producer<T>,
    consumer: Consumer<T>,
    head: usize,
    tail: usize,
    run: Seq<Event<T>>,
)
    requires
        laws::took_part(producer, consumer, run),
        head == index::counter(execution::released(run)),
        tail == index::counter(execution::published(run)),
    ensures
        ({
            let left = index::slots_between(producer.cap(), head, tail);
            let held = execution::slots(producer.cap(), run);
            let q = queued(producer, consumer);
            &&& left.len() == q.len()
            &&& left.no_duplicates()
            &&& forall|i: int|
                0 <= i < left.len() ==> held[(#[trigger] left[i]) as int] == Some(q[i])
            &&& forall|slot: usize|
                slot < producer.cap() && !left.contains(slot) ==> #[trigger] held[slot as int]
                    == None::<T>
            &&& producer.sent() == consumer.received() + q
        }),
{
    let capacity = producer.cap();
    let first = consumer.received().len();
    let last = producer.sent().len();
    let left = index::slots_between(capacity, head, tail);
    let held = execution::slots(capacity, run);
    let q = queued(producer, consumer);
    execution::lemma_balanced(capacity, run);
    index::lemma_capacity(capacity);
    index::lemma_distance(last, first);
    assert forall|i: int| 0 <= i < left.len() implies #[trigger] left[i] == index::slot_of(
        capacity,
        (first + i) as nat,
    ) by {
        index::lemma_slot_past(capacity, first, i as nat);
    }
    assert forall|i: int, j: int| 0 <= i < j < left.len() implies left[i] != left[j] by {
        index::lemma_slots_differ(capacity, (first + i) as nat, (first + j) as nat);
    }
    assert forall|slot: usize| slot < capacity && !left.contains(slot) implies
        #[trigger] held[slot as int] == None::<T> by {
        let position = laws::every_slot_has_one_position(capacity, first, slot);
        if position < last {
            assert(left[position - first] == slot);
        }
    }
    assert(producer.sent() =~= consumer.received() + q);
}

} // verus!
