//! The endpoints on two threads.
//!
//! The ring is made of `std`'s atomics and mutexes, while `loom` switches between its
//! threads only at its own operations. So these tests run the two ends in turns, at the
//! points where a thread is spawned, joined or yields; they do not explore the
//! interleavings of single accesses. Those are covered by the laws of the library.

use loom::thread;
use spsc_ring::{channel, Consumer, Producer};

#[test]
fn batch_publish_wraps_and_stays_ordered() {
    loom::model(|| {
        let (mut tx, mut rx) = channel::<usize>(2);
        // Advance both indices so the batch below straddles the wrap point.
        tx.push(9).expect("empty ring");
        assert_eq!(rx.pop(), Some(9));

        let producer = thread::spawn(move || {
            assert_eq!(tx.push_slice(&[1, 2]), 2);
        });

        let mut got = Vec::new();
        let mut buf = [0usize; 2];
        while got.len() < 2 {
            let n = rx.pop_slice(&mut buf);
            got.extend_from_slice(&buf[..n]);
            if n == 0 {
                loom::thread::yield_now();
            }
        }

        producer.join().unwrap();
        assert_eq!(got, [1, 2]);
    });
}

#[test]
fn spsc_publishes_in_order() {
    loom::model(|| {
        // Capacity 2 holds both items, so the producer never blocks; the consumer
        // is the only side that spins.
        let (mut tx, mut rx) = channel::<usize>(2);

        let producer = thread::spawn(move || {
            for i in 0..2 {
                tx.push(i).expect("ring has room for both items");
            }
        });

        let mut received = Vec::new();
        while received.len() < 2 {
            match rx.pop() {
                Some(v) => received.push(v),
                None => loom::thread::yield_now(),
            }
        }

        producer.join().unwrap();
        assert_eq!(received, [0, 1]);
    });
}

#[test]
fn full_ring_hands_over_to_the_consumer() {
    loom::model(|| {
        let (mut tx, mut rx) = channel::<usize>(2);

        let producer = thread::spawn(move || {
            for i in 0..7 {
                while tx.push(i).is_err() {
                    loom::thread::yield_now();
                }
            }
        });

        let mut received = Vec::new();
        while received.len() < 7 {
            match rx.pop() {
                Some(v) => received.push(v),
                None => loom::thread::yield_now(),
            }
        }

        producer.join().unwrap();
        assert_eq!(received, [0, 1, 2, 3, 4, 5, 6]);
    });
}

fn assert_send<T: Send>() {}

trait AmbiguousIfSync<A> {
    fn check() {}
}

struct IsSync;

impl<T> AmbiguousIfSync<()> for T {}

impl<T: Sync> AmbiguousIfSync<IsSync> for T {}

#[test]
fn endpoints_are_send_but_not_sync() {
    assert_send::<Producer<u64>>();
    assert_send::<Consumer<u64>>();
    // The elements themselves need not be `Sync`.
    assert_send::<Producer<std::cell::Cell<u64>>>();
    assert_send::<Consumer<std::cell::Cell<u64>>>();
    // These have two candidates, and do not compile, for a type that is `Sync`.
    <Producer<u64> as AmbiguousIfSync<_>>::check();
    <Consumer<u64> as AmbiguousIfSync<_>>::check();
}
