# spsc_ring

A bounded, wait-free single-producer/single-consumer ring buffer, verified with Verus.

`channel(capacity)` hands back a `Producer` and a `Consumer` over a buffer whose size is
`capacity` rounded up to a power of two. `push` hands the element back as `Err(item)` when
the ring is full, `pop` returns `None` when it is empty, and `push_slice` / `pop_slice` move
batches of `Copy` elements. Both endpoints are `Send` but not `Sync`. Nothing allocates
after construction.

## How it works

- `head` and `tail` are counters that run freely and wrap with the machine word; the slot of
  a counter is its low bits. The ring is full when `tail - head` is the capacity and empty
  when it is zero.
- Each endpoint owns its counter and remembers the other's. It loads the other's counter
  only when the ring looks full (or empty) without it.
- An element is in its slot before the counter that publishes it is stored, and a batch is
  published with a single store. The stores are releases and the loads are acquires.
- A slot is a cell behind a mutex, which keeps the code free of `unsafe`. The mutex is tried
  and never waited for: an access that finds the other end inside would be refused. In the
  model of a run an access to a slot begins, lasts and ends, and the laws
  `endpoints_use_different_slots` and `no_access_fails` show that the ends are never inside of
  the same slot, so no access is refused.
- What was never popped is dropped with the ring, oldest first: the slots between the two
  counters are vacated in order.

## What is proved

The contracts of the endpoints say which accesses to the shared memory a call makes, in
which order, and what it returns for each value that the memory can answer with. They also
say that each of these accesses was made: the counter was loaded with acquire or stored with
release by a call to the atomic itself, and the slot was reached through its own mutex. A
ring is made together with one trace for each end, and no access takes another, so a trace
leaves none out. A new channel has both counters at zero and every slot vacant. From this,
over every interleaving of the two endpoints and with loads that may lag behind:

- what was popped is the beginning of what was pushed, and no more than the capacity is
  under way between the two;
- a write finds its slot vacant, a take finds the next element, and the ends use different
  slots;
- the slots hold exactly what was pushed and not yet popped;
- a push fails only on a full ring and a pop only on an empty one, as far as the endpoint
  can know;
- a slice is published, or its slots are released, at once and after the last access to them;
- `len` is within the capacity; room that the producer saw with it is still there for its
  next pushes, and elements that the consumer saw are there for its next pops;
- a call makes a bounded number of accesses, whatever the other endpoint does.

While the other endpoint rests, the ring is exactly a bounded queue:

- a push appends and a pop removes the first, each if and only if there is room or an
  element, and what goes in comes out;
- a slice comes to the same as its elements one by one, and two slices to the same as one;
- `len` is the length of the queue at both ends, `is_full` tells whether the next push
  fails, and `is_empty` whether the next pop does;
- what is left when the ring is dropped lies in order in the slots between the counters.

How the memory answers is taken from the rules for atomics and is stated in one place,
`execution::memory_agrees`: reads of a counter do not go back, a slot is refused only while
the other end is inside, and it holds what was last put there.

## Layout

| Module      | Contents                                                          |
|-------------|-------------------------------------------------------------------|
| `index`     | arithmetic on wrapping counters                                   |
| `sync`      | the cell of a slot, padding, and what is taken from `std` on trust |
| `protocol`  | the accesses of an endpoint, and the rules for them               |
| `slots`     | the row of slots, and how it is vacated                           |
| `ring`      | the shared memory                                                 |
| `producer`, `consumer`, `channel` | the endpoints                               |
| `execution` | runs of two endpoints on one ring, and their invariant            |
| `laws`      | what holds in every run                                           |
| `queue`, `resting` | what holds while the other endpoint rests                  |
