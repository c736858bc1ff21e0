use keypad_core::clock::{CycleClock, WRAP};

#[test]
fn a_new_clock_stands_at_its_first_reading() {
    assert_eq!(CycleClock::new(0).now(), 0);
    assert_eq!(CycleClock::new(u32::MAX).now(), u32::MAX as u64);
}

#[test]
fn the_count_follows_the_readings() {
    let mut clock = CycleClock::new(100);
    assert_eq!(clock.observe(150), 150);
    assert_eq!(clock.observe(150), 150);
    assert_eq!(clock.now(), 150);
    assert_eq!(clock.observe(u32::MAX), u32::MAX as u64);
}

#[test]
fn a_smaller_reading_is_a_turn_of_the_counter() {
    assert_eq!(WRAP, 1 << 32);
    let mut clock = CycleClock::new(4_000_000_000);
    assert_eq!(clock.observe(5), WRAP + 5);
    assert_eq!(clock.observe(4), 2 * WRAP + 4);
    assert_eq!(clock.observe(4), 2 * WRAP + 4);
    assert_eq!(clock.observe(0), 3 * WRAP);
    assert_eq!(clock.observe(u32::MAX), 3 * WRAP + u32::MAX as u64);
}
