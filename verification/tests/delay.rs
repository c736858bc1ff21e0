use keypad_core::delay::{ms_to_cycle, MAX_DELAY_MS, NS_PER_MS, PERIOD_NS};

#[test]
fn the_reference_period_is_ten_nanoseconds() {
    assert_eq!(PERIOD_NS, 10);
    assert_eq!(NS_PER_MS, 1_000_000);
    assert_eq!(MAX_DELAY_MS, 4294);
    assert!(MAX_DELAY_MS as u64 * NS_PER_MS as u64 <= u32::MAX as u64);
    assert!((MAX_DELAY_MS as u64 + 1) * NS_PER_MS as u64 > u32::MAX as u64);
}

#[test]
fn cycles_are_the_period_over_the_delay() {
    assert_eq!(ms_to_cycle(1), 10 / 1_000_000);
    assert_eq!(ms_to_cycle(120), 10 / 120_000_000);
    assert_eq!(ms_to_cycle(MAX_DELAY_MS), 0);
}
