//! Arithmetic on counters.

use spsc_ring::index::{masked, round_up};

#[test]
fn rounding_gives_the_least_power_of_two() {
    assert_eq!(round_up(1), 1);
    assert_eq!(round_up(2), 2);
    assert_eq!(round_up(3), 4);
    assert_eq!(round_up(5), 8);
    assert_eq!(round_up(1024), 1024);
    assert_eq!(round_up(1025), 2048);
    let top = usize::MAX / 2 + 1;
    assert_eq!(round_up(top), top);
    assert_eq!(round_up(top - 1), top);
    assert_eq!(round_up(top / 2 + 1), top);
}

#[test]
fn masking_takes_the_low_bits() {
    assert_eq!(masked(0, 3), 0);
    assert_eq!(masked(6, 3), 2);
    assert_eq!(masked(6, 7), 6);
    assert_eq!(masked(5, 0), 0);
}

#[test]
fn slots_go_on_where_the_counter_wraps() {
    assert_eq!(masked(usize::MAX - 1, 3), 2);
    assert_eq!(masked(usize::MAX, 3), 3);
    assert_eq!(masked(usize::MAX.wrapping_add(1), 3), 0);
}
