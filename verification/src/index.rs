//! Arithmetic on free-running counters.
//!
//! A counter counts the elements that have gone past one end of the ring. It is
//! never reset: it wraps around with the machine word, so what an endpoint holds
//! is the count modulo [`modulus`]. A capacity is a power of two, which divides
//! the modulus, so the low bits of a counter still name a slot after it wrapped.
use vstd::prelude::*;

verus! {

/// The number of values that a counter can take.
pub open spec fn modulus() -> int {
    usize::MAX + 1
}

/// The counter that stands at `count` elements.
pub open spec fn counter(count: nat) -> usize {
    (count as int % modulus()) as usize
}

/// How many steps take the counter `earlier` to the counter `later`.
pub open spec fn distance(later: usize, earlier: usize) -> int {
    if later >= earlier {
        later - earlier
    } else {
        later - earlier + modulus()
    }
}

/// The slot of the element with the given position in the stream.
pub open spec fn slot_of(capacity: nat, position: nat) -> usize {
    (position as int % capacity as int) as usize
}

/// The numbers of slots that a ring can have: the powers of two that fit a counter.
pub open spec fn is_capacity(capacity: nat) -> bool {
    &&& vstd::arithmetic::power2::is_pow2(capacity as int)
    &&& capacity < modulus()
}

/// Whether a ring holds nothing, as seen through a pair of counters.
pub open spec fn is_empty(tail: usize, head: usize) -> bool {
    distance(tail, head) == 0
}

/// Whether a ring has no room, as seen through a pair of counters.
pub open spec fn is_full(capacity: nat, tail: usize, head: usize) -> bool {
    distance(tail, head) == capacity
}

/// The room in a ring, as seen through a pair of counters.
pub open spec fn room(capacity: nat, tail: usize, head: usize) -> int {
    if distance(tail, head) <= capacity {
        capacity - distance(tail, head)
    } else {
        0
    }
}

/// `capacity` is the least power of two that holds `wanted` elements.
pub open spec fn rounds_up_to(wanted: nat, capacity: nat) -> bool {
    &&& vstd::arithmetic::power2::is_pow2(capacity as int)
    &&& wanted <= capacity
    &&& forall|other: nat| #[trigger]
        vstd::arithmetic::power2::is_pow2(other as int) && wanted <= other ==> capacity <= other
}

/// The exponent of a power of two.
proof fn lemma_exponent(n: nat) -> (e: nat)
    requires
        vstd::arithmetic::power2::is_pow2(n as int),
    ensures
        n == vstd::arithmetic::power2::pow2(e),
{
    vstd::arithmetic::power2::is_pow2_equiv(n as int);
    let e = choose|i: nat| vstd::arithmetic::power::pow(2, i) == n;
    vstd::arithmetic::power2::lemma_pow2(e);
    e
}

/// Every power `pow2(e)` is a power of two.
proof fn lemma_is_pow2(e: nat)
    ensures
        vstd::arithmetic::power2::is_pow2(vstd::arithmetic::power2::pow2(e) as int),
{
    vstd::arithmetic::power2::lemma_pow2(e);
    vstd::arithmetic::power2::is_pow2_equiv(vstd::arithmetic::power2::pow2(e) as int);
}

/// The modulus is a power of two, with the width of a machine word as exponent.
proof fn lemma_modulus()
    ensures
        modulus() == vstd::arithmetic::power2::pow2(usize::BITS as nat),
{
    vstd::arithmetic::power2::lemma2_to64();
}

/// A capacity is positive, divides the modulus and is at most half of it.
pub proof fn lemma_capacity(capacity: nat)
    requires
        is_capacity(capacity),
    ensures
        1 <= capacity,
        capacity + capacity <= modulus(),
        modulus() % capacity as int == 0,
        modulus() == capacity * (modulus() / capacity as int),
        1 <= modulus() / capacity as int,
{
    let e = lemma_exponent(capacity);
    let bits = usize::BITS as nat;
    vstd::arithmetic::power2::lemma_pow2_pos(e);
    lemma_modulus();
    if e > bits {
        vstd::arithmetic::power2::lemma_pow2_strictly_increases(bits, e);
    }
    assert(e < bits);
    vstd::arithmetic::power2::lemma_pow2_unfold(bits);
    if e < bits - 1 {
        vstd::arithmetic::power2::lemma_pow2_strictly_increases(e, (bits - 1) as nat);
    }
    let rest = vstd::arithmetic::power2::pow2((bits - e) as nat);
    vstd::arithmetic::power2::lemma_pow2_adds(e, (bits - e) as nat);
    vstd::arithmetic::power2::lemma_pow2_pos((bits - e) as nat);
    assert(modulus() == capacity * rest);
    vstd::arithmetic::div_mod::lemma_mod_multiples_basic(rest as int, capacity as int);
    vstd::arithmetic::div_mod::lemma_div_by_multiple(rest as int, capacity as int);
    assert(rest * capacity == capacity * rest) by (nonlinear_arith);
}

/// Twice a power of two is one.
proof fn lemma_double(n: nat)
    requires
        vstd::arithmetic::power2::is_pow2(n as int),
    ensures
        vstd::arithmetic::power2::is_pow2(2 * n as int),
{
    let e = lemma_exponent(n);
    vstd::arithmetic::power2::lemma_pow2_unfold((e + 1) as nat);
    lemma_is_pow2((e + 1) as nat);
}

/// No power of two lies strictly between a power of two and its double.
proof fn lemma_gap(n: nat, other: nat)
    requires
        vstd::arithmetic::power2::is_pow2(n as int),
        vstd::arithmetic::power2::is_pow2(other as int),
        n < other,
    ensures
        2 * n <= other,
{
    let e = lemma_exponent(n);
    let f = lemma_exponent(other);
    if f < e {
        vstd::arithmetic::power2::lemma_pow2_strictly_increases(f, e);
    }
    vstd::arithmetic::power2::lemma_pow2_unfold((e + 1) as nat);
    if e + 1 < f {
        vstd::arithmetic::power2::lemma_pow2_strictly_increases((e + 1) as nat, f);
    }
}

/// The counter of no elements is zero.
pub proof fn lemma_start()
    ensures
        counter(0) == 0,
{
    vstd::arithmetic::div_mod::lemma_small_mod(0, modulus() as nat);
}

/// The next counter is one more, and zero after the last.
pub proof fn lemma_wraps(count: nat)
    ensures
        count <= usize::MAX ==> counter(count) == count,
        counter(count + 1) == (if counter(count) == usize::MAX {
            0
        } else {
            counter(count) + 1
        }),
{
    if count <= usize::MAX {
        vstd::arithmetic::div_mod::lemma_small_mod(count, modulus() as nat);
    }
    lemma_advance(count, 1);
}

/// Advancing a counter by `steps` gives the counter of the larger count.
pub proof fn lemma_advance(count: nat, steps: usize)
    ensures
        counter(count).wrapping_add(steps) == counter(count + steps as nat),
{
    let m = modulus();
    vstd::arithmetic::div_mod::lemma_mod_bound(count as int, m);
    vstd::arithmetic::div_mod::lemma_add_mod_noop(count as int, steps as int, m);
    vstd::arithmetic::div_mod::lemma_small_mod(steps as nat, m as nat);
    let sum = counter(count) + steps;
    if sum >= m {
        vstd::arithmetic::div_mod::lemma_mod_multiples_vanish(1, sum - m, m);
        vstd::arithmetic::div_mod::lemma_small_mod((sum - m) as nat, m as nat);
    } else {
        vstd::arithmetic::div_mod::lemma_small_mod(sum as nat, m as nat);
    }
}

/// The distance between two counters is the difference of their counts, as long as
/// that difference fits a counter.
pub proof fn lemma_distance(later: nat, earlier: nat)
    requires
        earlier <= later < earlier + modulus(),
    ensures
        distance(counter(later), counter(earlier)) == later - earlier,
{
    let m = modulus();
    vstd::arithmetic::div_mod::lemma_mod_bound(later as int, m);
    vstd::arithmetic::div_mod::lemma_mod_bound(earlier as int, m);
    vstd::arithmetic::div_mod::lemma_sub_mod_noop(later as int, earlier as int, m);
    vstd::arithmetic::div_mod::lemma_small_mod((later - earlier) as nat, m as nat);
    let d = counter(later) - counter(earlier);
    if d >= 0 {
        vstd::arithmetic::div_mod::lemma_small_mod(d as nat, m as nat);
    } else {
        vstd::arithmetic::div_mod::lemma_mod_multiples_vanish(1, d, m);
        vstd::arithmetic::div_mod::lemma_small_mod((d + m) as nat, m as nat);
    }
}

/// Advancing the later of two counters adds to their distance.
pub proof fn lemma_distance_grows(later: usize, earlier: usize, steps: usize)
    requires
        distance(later, earlier) + steps < modulus(),
    ensures
        distance(later.wrapping_add(steps), earlier) == distance(later, earlier) + steps,
{
}

/// Two positions less than a capacity apart have different slots.
pub proof fn lemma_slots_differ(capacity: nat, first: nat, second: nat)
    requires
        is_capacity(capacity),
        first < second < first + capacity,
    ensures
        slot_of(capacity, first) != slot_of(capacity, second),
{
    let c = capacity as int;
    lemma_capacity(capacity);
    vstd::arithmetic::div_mod::lemma_mod_bound(first as int, c);
    vstd::arithmetic::div_mod::lemma_mod_bound(second as int, c);
    if first as int % c == second as int % c {
        vstd::arithmetic::div_mod::lemma_mod_equivalence(second as int, first as int, c);
        vstd::arithmetic::div_mod::lemma_small_mod((second - first) as nat, capacity);
    }
}

/// A slot lies within the ring.
pub proof fn lemma_slot_bound(capacity: nat, position: nat)
    requires
        is_capacity(capacity),
    ensures
        slot_of(capacity, position) < capacity,
        slot_of(capacity, position) == position as int % capacity as int,
{
    lemma_capacity(capacity);
    vstd::arithmetic::div_mod::lemma_mod_bound(position as int, capacity as int);
}

/// The least power of two that is at least `wanted`.
pub fn round_up(wanted: usize) -> (capacity: usize)
    requires
        0 < wanted <= usize::MAX / 2 + 1,
    ensures
        is_capacity(capacity as nat),
        rounds_up_to(wanted as nat, capacity as nat),
{
    let mut capacity: usize = 1;
    proof {
        vstd::arithmetic::power2::lemma2_to64();
        lemma_is_pow2(0);
    }
    while capacity < wanted
        invariant
            wanted <= usize::MAX / 2 + 1,
            vstd::arithmetic::power2::is_pow2(capacity as int),
            1 <= capacity,
            capacity == 1 || (capacity % 2 == 0 && capacity / 2 < wanted
                && vstd::arithmetic::power2::is_pow2(capacity as int / 2)),
        decreases 2 * wanted - capacity,
    {
        proof {
            lemma_double(capacity as nat);
        }
        capacity = capacity * 2;
    }
    proof {
        assert forall|other: nat| #[trigger]
            vstd::arithmetic::power2::is_pow2(other as int) && wanted <= other implies capacity
            <= other by {
            if capacity > 1 {
                lemma_gap((capacity / 2) as nat, other);
            }
        }
    }
    capacity
}

/// A counter that wrapped still names the slot of its count.
pub proof fn lemma_wrapped_slot(capacity: nat, count: nat)
    requires
        is_capacity(capacity),
    ensures
        counter(count) as int % capacity as int == slot_of(capacity, count),
        slot_of(capacity, count) < capacity,
{
    lemma_capacity(capacity);
    lemma_slot_bound(capacity, count);
    vstd::arithmetic::div_mod::lemma_mod_bound(count as int, modulus());
    vstd::arithmetic::div_mod::lemma_mod_mod(
        count as int,
        capacity as int,
        modulus() / capacity as int,
    );
}

/// One lap further on, the slot is the same.
pub proof fn lemma_next_lap(capacity: nat, position: nat)
    requires
        is_capacity(capacity),
    ensures
        slot_of(capacity, position + capacity) == slot_of(capacity, position),
{
    lemma_capacity(capacity);
    vstd::arithmetic::div_mod::lemma_mod_multiples_vanish(1, position as int, capacity as int);
}

/// The slots of the elements from the counter `head` up to the counter `tail`, in order.
pub open spec fn slots_between(capacity: nat, head: usize, tail: usize) -> Seq<usize> {
    Seq::new(distance(tail, head) as nat, |i: int| slot_of(capacity, (head + i) as nat))
}

/// Past a counter that wrapped, the slots go on as past its count.
pub proof fn lemma_slot_past(capacity: nat, count: nat, steps: nat)
    requires
        is_capacity(capacity),
    ensures
        slot_of(capacity, counter(count) as nat + steps) == slot_of(capacity, count + steps),
{
    let c = capacity as int;
    lemma_capacity(capacity);
    lemma_wrapped_slot(capacity, count);
    lemma_slot_bound(capacity, count);
    vstd::arithmetic::div_mod::lemma_add_mod_noop(counter(count) as int, steps as int, c);
    vstd::arithmetic::div_mod::lemma_add_mod_noop(count as int, steps as int, c);
}

/// The low bits of a counter are its remainder by the capacity.
pub proof fn lemma_masked(position: usize, mask: usize)
    requires
        is_capacity((mask + 1) as nat),
    ensures
        position & mask == position as int % (mask + 1),
        position & mask <= mask,
{
    let capacity = (mask + 1) as nat;
    lemma_capacity(capacity);
    let e = lemma_exponent(capacity);
    let bits = usize::BITS as nat;
    lemma_modulus();
    if e > bits {
        vstd::arithmetic::power2::lemma_pow2_strictly_increases(bits, e);
    }
    vstd::bits::lemma_usize_low_bits_mask_is_mod(position, e);
    vstd::arithmetic::div_mod::lemma_mod_bound(position as int, capacity as int);
}

/// The slot that a counter names: its low bits.
pub fn masked(position: usize, mask: usize) -> (slot: usize)
    requires
        is_capacity((mask + 1) as nat),
    ensures
        slot == position as int % (mask + 1),
        slot <= mask,
{
    proof {
        lemma_masked(position, mask);
    }
    position & mask
}

} // verus!
