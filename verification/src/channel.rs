//! Two endpoints on one ring.
use std::sync::Arc;

use vstd::prelude::*;

use crate::consumer::Consumer;
#[allow(unused_imports)]
use crate::index;
#[allow(unused_imports)]
use crate::laws;
use crate::producer::Producer;
use crate::ring::Ring;

verus! {

/// The two endpoints share a ring.
pub closed spec fn connected<T>(producer: Producer<T>, consumer: Consumer<T>) -> bool {
    producer.shared() == consumer.shared()
}

/// Endpoints stay connected when the producer moves on.
pub proof fn lemma_producer_stays_connected<T>(
    before: Producer<T>,
    after: Producer<T>,
    consumer: Consumer<T>,
)
    requires
        connected(before, consumer),
        before.same_ring(after),
    ensures
        connected(after, consumer),
{
    before.lemma_same_ring(after);
}

/// Endpoints stay connected when the consumer moves on.
pub proof fn lemma_consumer_stays_connected<T>(
    producer: Producer<T>,
    before: Consumer<T>,
    after: Consumer<T>,
)
    requires
        connected(producer, before),
        before.same_ring(after),
    ensures
        connected(producer, after),
{
    before.lemma_same_ring(after);
}

/// Creates a ring holding at least `capacity` elements (rounded up to a power of
/// two) and splits it into its two endpoints.
///
/// No ring has zero slots, and no power of two beyond half the range of a counter
/// is one.
pub fn channel<T>(capacity: usize) -> (ends: (Producer<T>, Consumer<T>))
    requires
        0 < capacity <= usize::MAX / 2 + 1,
    ensures
        laws::took_part(ends.0, ends.1, Seq::empty()),
        ends.0.starts_empty(),
        ends.1.starts_empty(),
        index::rounds_up_to(capacity as nat, ends.0.cap()),
{
    let (ring, pushes, pops) = Ring::with_capacity(capacity);
    let ring = Arc::new(ring);
    let producer = Producer::new(Arc::clone(&ring), pushes);
    let consumer = Consumer::new(ring, pops);
    (producer, consumer)
}

} // verus!
