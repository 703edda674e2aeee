use std::collections::HashSet;

use http1::rng::xorshift_128::{ClockError, XorShiftRng128};

#[test]
fn should_produce_same_result_for_different_states() {
    let mut rng1 = XorShiftRng128::with_state(12345);
    let mut rng2 = XorShiftRng128::with_state(12345);

    assert_eq!(rng1.next(), rng2.next());
    assert_eq!(rng1.next(), rng2.next());
    assert_eq!(rng1.next(), rng2.next());
    assert_eq!(rng1.next(), rng2.next());
}

#[test]
fn should_produce_unique_values() {
    let mut rng = XorShiftRng128::timestamp().unwrap();

    let values = (0..1000).map(|_| rng.next()).collect::<HashSet<_>>();
    assert_eq!(values.len(), 1000);
}

#[test]
fn should_compute_first_step_of_known_state() {
    // state 1: words (0, 0, 0, 1); t = 1 ^ (1 << 11) = 0x801, t ^= t >> 8 -> 0x809.
    let mut rng = XorShiftRng128::with_state(1);
    assert_eq!(rng.next(), 0x809u128 << 96);
    assert_eq!(rng.next_32(), 0);
}

#[test]
fn should_take_low_bits() {
    let mut a = XorShiftRng128::with_state(0xdead_beef);
    let mut b = XorShiftRng128::with_state(0xdead_beef);
    let full = a.next_128();
    assert_eq!(b.next_64(), full as u64);
}

#[test]
fn from_elapsed_seeds_with_milliseconds_and_nanoseconds() {
    assert!(matches!(XorShiftRng128::from_elapsed(None), Err(ClockError::BeforeEpoch)));
    assert!(matches!(XorShiftRng128::from_elapsed(Some((0, 0))), Err(ClockError::ZeroState)));

    let mut from_clock = XorShiftRng128::from_elapsed(Some((1_700_000_000_123, 456))).unwrap();
    let mut from_state = XorShiftRng128::with_state((1_700_000_000_123u128 << 64) | 456);
    for _ in 0..4 {
        assert_eq!(from_clock.next(), from_state.next());
    }
}
