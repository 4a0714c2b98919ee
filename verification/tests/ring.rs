//! The endpoints on one thread.

use std::sync::atomic::{AtomicUsize, Ordering};
use std::sync::{Arc, Mutex};

use spsc_ring::{channel, Consumer, Producer};

#[test]
fn capacity_rounds_up_to_power_of_two() {
    assert_eq!(channel::<u64>(3).0.capacity(), 4);
    assert_eq!(channel::<u64>(16).0.capacity(), 16);
    assert_eq!(channel::<u64>(17).0.capacity(), 32);
}

#[test]
fn push_until_full_then_pop_until_empty() {
    let (mut tx, mut rx) = channel::<u64>(4);
    assert!(rx.is_empty());
    for i in 0..4 {
        assert!(tx.push(i).is_ok());
    }
    assert_eq!(tx.push(99), Err(99));
    assert_eq!(tx.len(), 4);
    for i in 0..4 {
        assert_eq!(rx.pop(), Some(i));
    }
    assert_eq!(rx.pop(), None);
    assert!(rx.is_empty());
}

#[test]
fn handles_non_copy_payload() {
    let (mut tx, mut rx) = channel::<String>(4);
    assert!(tx.push("hello".to_string()).is_ok());
    assert!(tx.push("world".to_string()).is_ok());
    assert_eq!(rx.pop().as_deref(), Some("hello"));
    assert_eq!(rx.pop().as_deref(), Some("world"));
    assert!(rx.pop().is_none());
}

struct Counted(Arc<AtomicUsize>);

impl Drop for Counted {
    fn drop(&mut self) {
        self.0.fetch_add(1, Ordering::SeqCst);
    }
}

#[test]
fn drops_each_element_exactly_once() {
    let drops = Arc::new(AtomicUsize::new(0));
    {
        let (mut tx, mut rx) = channel::<Counted>(8);
        for _ in 0..5 {
            assert!(tx.push(Counted(Arc::clone(&drops))).is_ok());
        }
        drop(rx.pop().unwrap());
        drop(rx.pop().unwrap());
        assert_eq!(drops.load(Ordering::SeqCst), 2);
    }
    assert_eq!(drops.load(Ordering::SeqCst), 5);
}

#[test]
fn drops_each_element_once_after_wrapping() {
    let drops = Arc::new(AtomicUsize::new(0));
    {
        let (mut tx, mut rx) = channel::<Counted>(2);
        for _ in 0..5 {
            assert!(tx.push(Counted(Arc::clone(&drops))).is_ok());
            assert!(rx.pop().is_some());
        }
        assert_eq!(drops.load(Ordering::SeqCst), 5);
        assert!(tx.push(Counted(Arc::clone(&drops))).is_ok());
        assert!(tx.push(Counted(Arc::clone(&drops))).is_ok());
        let refused = tx.push(Counted(Arc::clone(&drops)));
        assert!(refused.is_err());
        drop(refused);
        assert_eq!(drops.load(Ordering::SeqCst), 6);
        drop(rx);
        assert_eq!(drops.load(Ordering::SeqCst), 6);
    }
    assert_eq!(drops.load(Ordering::SeqCst), 8);
}

struct Noted(u64, Arc<Mutex<Vec<u64>>>);

impl Drop for Noted {
    fn drop(&mut self) {
        self.1.lock().unwrap().push(self.0);
    }
}

#[test]
fn leftover_elements_are_dropped_oldest_first() {
    let order = Arc::new(Mutex::new(Vec::new()));
    {
        let (mut tx, mut rx) = channel::<Noted>(2);
        assert!(tx.push(Noted(1, Arc::clone(&order))).is_ok());
        assert!(tx.push(Noted(2, Arc::clone(&order))).is_ok());
        drop(rx.pop().unwrap());
        // The third element shares the slot of the first, before that of the second.
        assert!(tx.push(Noted(3, Arc::clone(&order))).is_ok());
        assert_eq!(*order.lock().unwrap(), [1]);
    }
    assert_eq!(*order.lock().unwrap(), [1, 2, 3]);
}

#[test]
fn the_ring_lives_as_long_as_either_end() {
    let order = Arc::new(Mutex::new(Vec::new()));
    let (mut tx, mut rx) = channel::<Noted>(4);
    for i in 0..3 {
        assert!(tx.push(Noted(i, Arc::clone(&order))).is_ok());
    }
    drop(tx);
    assert!(order.lock().unwrap().is_empty());
    assert_eq!(rx.pop().map(|noted| noted.0), Some(0));
    drop(rx);
    assert_eq!(*order.lock().unwrap(), [0, 1, 2]);
}

#[test]
fn wraps_around_the_buffer() {
    let (mut tx, mut rx) = channel::<u64>(4);
    for round in 0..1000 {
        assert!(tx.push(round).is_ok());
        assert_eq!(rx.pop(), Some(round));
    }
    assert!(rx.is_empty());
}

#[test]
fn slice_roundtrip_with_wrap() {
    let (mut tx, mut rx) = channel::<u64>(4);
    assert!(tx.push(0).is_ok());
    assert_eq!(rx.pop(), Some(0));

    assert_eq!(tx.push_slice(&[1, 2, 3, 4, 5]), 4);
    assert_eq!(tx.push_slice(&[9]), 0);
    let mut buf = [0u64; 8];
    assert_eq!(rx.pop_slice(&mut buf), 4);
    assert_eq!(&buf[..4], &[1, 2, 3, 4]);
    assert_eq!(rx.pop_slice(&mut buf), 0);
    assert_eq!(tx.push_slice(&[]), 0);
}

#[test]
fn slices_interleave_with_single_ops() {
    let (mut tx, mut rx) = channel::<u64>(8);
    assert!(tx.push(1).is_ok());
    assert_eq!(tx.push_slice(&[2, 3, 4]), 3);
    assert_eq!(rx.pop(), Some(1));
    let mut buf = [0u64; 2];
    assert_eq!(rx.pop_slice(&mut buf), 2);
    assert_eq!(buf, [2, 3]);
    assert_eq!(rx.pop(), Some(4));
    assert!(rx.is_empty());
}

#[test]
fn smallest_ring_holds_one() {
    let (mut tx, mut rx) = channel::<u64>(1);
    assert_eq!(tx.capacity(), 1);
    assert_eq!(rx.capacity(), 1);
    assert_eq!(rx.pop(), None);
    assert_eq!(tx.push(7), Ok(()));
    assert_eq!(tx.push(8), Err(8));
    assert_eq!(rx.pop(), Some(7));
    assert_eq!(rx.pop(), None);
    assert_eq!(tx.push(8), Ok(()));
    assert_eq!(rx.pop(), Some(8));
}

#[test]
fn refused_payload_comes_back_whole() {
    let (mut tx, mut rx) = channel::<String>(1);
    assert!(tx.push("kept".to_string()).is_ok());
    assert_eq!(tx.push("refused".to_string()), Err("refused".to_string()));
    assert_eq!(rx.pop().as_deref(), Some("kept"));
}

#[test]
fn lengths_follow_the_queue() {
    let (mut tx, mut rx) = channel::<u64>(4);
    assert_eq!((tx.len(), rx.len()), (0, 0));
    assert!(tx.is_empty() && !tx.is_full() && rx.is_empty());
    assert_eq!(tx.push_slice(&[1, 2, 3]), 3);
    assert_eq!((tx.len(), rx.len()), (3, 3));
    assert!(!tx.is_empty() && !tx.is_full() && !rx.is_empty());
    assert_eq!(tx.push(4), Ok(()));
    assert_eq!((tx.len(), rx.len()), (4, 4));
    assert!(tx.is_full());
    assert_eq!(rx.pop(), Some(1));
    assert_eq!((tx.len(), rx.len()), (3, 3));
    assert!(!tx.is_full());
}

#[test]
fn lengths_at_given_counters() {
    let (mut tx, mut rx) = channel::<u64>(4);
    assert_eq!(tx.push_slice(&[1, 2, 3, 4]), 4);
    assert_eq!(rx.pop(), Some(1));
    // The producer's counter is 4, the consumer's is 1.
    assert_eq!(tx.len_at(1), 3);
    assert_eq!(tx.len_at(4), 0);
    assert!(tx.is_empty_at(4) && !tx.is_empty_at(0));
    assert!(tx.is_full_at(0) && !tx.is_full_at(1));
    assert_eq!(rx.len_at(4), 3);
    assert_eq!(rx.len_at(1), 0);
    assert!(rx.is_empty_at(1) && !rx.is_empty_at(4));
}

#[test]
fn lengths_survive_counter_wrap() {
    let (tx, rx) = channel::<u64>(4);
    // A consumer two elements short of the end of the range, a producer at its start.
    assert_eq!(tx.len_at(usize::MAX - 1), 2);
    assert_eq!(tx.len_at(usize::MAX - 3), 4);
    assert!(tx.is_full_at(usize::MAX - 3));
    assert_eq!(rx.len_at(3), 3);
}

#[test]
fn slice_push_refills_released_slots() {
    let (mut tx, mut rx) = channel::<u64>(4);
    assert_eq!(tx.push_slice(&[1, 2, 3]), 3);
    assert_eq!(rx.pop(), Some(1));
    assert_eq!(rx.pop(), Some(2));
    assert_eq!(tx.push_slice(&[4, 5, 6, 7, 8]), 3);
    assert_eq!(tx.len(), 4);
    let mut buf = [0u64; 3];
    assert_eq!(rx.pop_slice(&mut buf), 3);
    assert_eq!(buf, [3, 4, 5]);
    assert_eq!(rx.pop(), Some(6));
    assert_eq!(rx.pop(), None);
}

#[test]
fn slice_pop_leaves_the_rest_of_the_buffer() {
    let (mut tx, mut rx) = channel::<u64>(4);
    assert_eq!(tx.push_slice(&[1, 2]), 2);
    let mut buf = [9u64; 4];
    assert_eq!(rx.pop_slice(&mut buf), 2);
    assert_eq!(buf, [1, 2, 9, 9]);
    assert_eq!(rx.pop_slice(&mut buf), 0);
    assert_eq!(buf, [1, 2, 9, 9]);
    let mut none: [u64; 0] = [];
    assert_eq!(rx.pop_slice(&mut none), 0);
}

#[test]
fn everything_pushed_comes_out_once_and_in_order() {
    let (mut tx, mut rx) = channel::<u64>(8);
    let mut next = 0u64;
    let mut expected = 0u64;
    let mut buf = [0u64; 7];
    for round in 0..2000u64 {
        let batch: Vec<u64> = (next..next + round % 11).collect();
        next += tx.push_slice(&batch) as u64;
        if round % 3 == 0 && tx.push(next).is_ok() {
            next += 1;
        }
        assert!(next - expected <= 8);
        let want = (round % 7) as usize;
        let n = rx.pop_slice(&mut buf[..want]);
        for &v in &buf[..n] {
            assert_eq!(v, expected);
            expected += 1;
        }
        if round % 2 == 0 {
            match rx.pop() {
                Some(v) => {
                    assert_eq!(v, expected);
                    expected += 1;
                }
                None => assert_eq!(expected, next),
            }
        }
        assert_eq!(tx.len() as u64, next - expected);
        assert_eq!(rx.len() as u64, next - expected);
    }
    while let Some(v) = rx.pop() {
        assert_eq!(v, expected);
        expected += 1;
    }
    assert_eq!(expected, next);
}

#[test]
fn conservation_with_boxed_elements() {
    let (mut tx, mut rx) = channel::<Box<usize>>(8);
    let mut expected = 0usize;
    for i in 0..20_000usize {
        let mut item = Box::new(i);
        while let Err(returned) = tx.push(item) {
            item = returned;
            assert_eq!(rx.pop().map(|v| *v), Some(expected));
            expected += 1;
        }
    }
    while let Some(v) = rx.pop() {
        assert_eq!(*v, expected);
        expected += 1;
    }
    assert_eq!(expected, 20_000);
}

#[test]
fn channels_do_not_mix() {
    let (mut tx, mut rx) = channel::<u64>(2);
    let (mut other_tx, mut other_rx) = channel::<u64>(2);
    assert!(tx.push(1).is_ok());
    assert!(other_tx.push(2).is_ok());
    assert_eq!(other_rx.pop(), Some(2));
    assert_eq!(other_rx.pop(), None);
    assert_eq!(rx.pop(), Some(1));
}

#[test]
fn room_once_seen_is_kept() {
    let (mut tx, mut rx) = channel::<u64>(8);
    for round in 0..50 {
        for i in 0..(round % 4) {
            let _ = tx.push(i);
        }
        let room = tx.capacity() - tx.len();
        for i in 0..room {
            if i % 3 == round as usize % 3 {
                rx.pop();
            }
            assert_eq!(tx.push(i as u64), Ok(()));
        }
        for _ in 0..(round % 7) {
            rx.pop();
        }
    }
}

#[test]
fn elements_once_seen_are_kept() {
    let (mut tx, mut rx) = channel::<u64>(8);
    for round in 0..50 {
        for i in 0..(round % 9) {
            let _ = tx.push(i);
        }
        let seen = rx.len();
        for i in 0..seen {
            if i % 3 == round as usize % 3 {
                let _ = tx.push(round);
            }
            assert!(rx.pop().is_some());
        }
    }
}

#[test]
fn a_new_ring_is_empty_to_both_ends() {
    let (tx, mut rx) = channel::<u64>(4);
    assert_eq!((tx.len(), rx.len()), (0, 0));
    assert!(tx.is_empty() && rx.is_empty() && !tx.is_full());
    assert_eq!(rx.pop(), None);
}

/// A channel of capacity four whose counters stand at `position`, with `queue` in it.
fn channel_at(position: u64, queue: &[u64]) -> (Producer<u64>, Consumer<u64>) {
    let (mut tx, mut rx) = channel::<u64>(4);
    for i in 0..position {
        assert_eq!(tx.push(i), Ok(()));
        assert_eq!(rx.pop(), Some(i));
    }
    for &item in queue {
        assert_eq!(tx.push(item), Ok(()));
    }
    (tx, rx)
}

fn drained(rx: &mut Consumer<u64>) -> Vec<u64> {
    let mut out = Vec::new();
    while let Some(item) = rx.pop() {
        out.push(item);
    }
    out
}

#[test]
fn a_slice_pushes_like_its_elements() {
    for position in 0..5 {
        for queue in [&[][..], &[7], &[7, 8], &[7, 8, 9], &[7, 8, 9, 10]] {
            let items = [1, 2, 3];
            let (mut tx, mut rx) = channel_at(position, queue);
            let (mut other_tx, mut other_rx) = channel_at(position + 1, queue);
            let pushed = tx.push_slice(&items);
            let mut single = 0;
            for &item in &items {
                if other_tx.push(item).is_err() {
                    break;
                }
                single += 1;
            }
            assert_eq!(pushed, single);
            assert_eq!(pushed, items.len().min(4 - queue.len()));
            assert_eq!(drained(&mut rx), drained(&mut other_rx));
        }
    }
}

#[test]
fn two_slices_push_like_one() {
    for a in 0..6 {
        for b in 0..6 {
            let items = [0, 1, 2, 3, 4, 5, 6, 7, 8, 9, 10];
            let (mut tx, mut rx) = channel_at(3, &[99]);
            let (mut other_tx, mut other_rx) = channel_at(6, &[99]);
            let split = tx.push_slice(&items[..a]) + tx.push_slice(&items[a..a + b]);
            assert_eq!(split, other_tx.push_slice(&items[..a + b]));
            assert_eq!(split, (a + b).min(3));
            assert_eq!(drained(&mut rx), drained(&mut other_rx));
        }
    }
}

#[test]
fn a_slice_pops_like_its_elements() {
    for size in 0..6 {
        let queue = [1, 2, 3];
        let (_tx, mut rx) = channel_at(2, &queue);
        let (_other_tx, mut other_rx) = channel_at(5, &queue);
        let mut out = vec![0; size];
        let popped = rx.pop_slice(&mut out);
        let mut single = Vec::new();
        while single.len() < size {
            match other_rx.pop() {
                Some(item) => single.push(item),
                None => break,
            }
        }
        assert_eq!(out[..popped], single[..]);
        assert_eq!(popped, size.min(3));
        assert_eq!(drained(&mut rx), drained(&mut other_rx));
    }
}

#[test]
fn elements_and_slices_make_the_round_trip() {
    let (mut tx, mut rx) = channel::<u64>(4);
    for round in 0..200 {
        assert_eq!(tx.push(round), Ok(()));
        assert_eq!(rx.pop(), Some(round));
        let items = [round, round + 1, round + 2, round + 3, round + 4];
        let size = round as usize % 6;
        let pushed = tx.push_slice(&items[..size]);
        assert_eq!(pushed, size.min(4));
        let mut out = [0; 5];
        assert_eq!(rx.pop_slice(&mut out), pushed);
        assert_eq!(out[..pushed], items[..pushed]);
        assert!(rx.is_empty() && tx.is_empty());
    }
}

#[test]
fn looks_tell_of_the_next_call() {
    let (mut tx, mut rx) = channel::<u64>(4);
    let mut queued = 0;
    for round in 0..100 {
        if round % 7 < 4 {
            let full = tx.is_full();
            assert_eq!(full, tx.len() == tx.capacity());
            assert_eq!(full, tx.push(round) == Err(round));
            queued += usize::from(!full);
        } else {
            let empty = rx.is_empty();
            assert_eq!(empty, rx.len() == 0);
            assert_eq!(empty, rx.pop().is_none());
            queued -= usize::from(!empty);
        }
        assert_eq!((tx.len(), rx.len()), (queued, queued));
        assert!(queued <= tx.capacity());
    }
}

#[test]
fn lengths_move_one_way_between_calls_of_an_end() {
    let (mut tx, mut rx) = channel::<u64>(4);
    assert_eq!(tx.push_slice(&[1, 2, 3, 4]), 4);
    let mut seen = tx.len();
    while rx.pop().is_some() {
        assert!(tx.len() <= seen);
        seen = tx.len();
    }
    assert_eq!(seen, 0);
    let mut seen = rx.len();
    while tx.push(9).is_ok() {
        assert!(rx.len() >= seen);
        seen = rx.len();
    }
    assert_eq!(seen, 4);
}

#[test]
fn leftovers_of_any_position_are_dropped_in_order() {
    for position in 0..9 {
        for left in 0..5 {
            let order = Arc::new(Mutex::new(Vec::new()));
            {
                let (mut tx, mut rx) = channel::<Noted>(4);
                for i in 0..position {
                    assert!(tx.push(Noted(i, Arc::clone(&order))).is_ok());
                    drop(rx.pop());
                }
                for i in 0..left {
                    assert!(tx.push(Noted(position + i, Arc::clone(&order))).is_ok());
                }
            }
            let expected: Vec<u64> = (0..position + left).collect();
            assert_eq!(*order.lock().unwrap(), expected);
        }
    }
}
