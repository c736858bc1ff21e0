//! The busy-wait delay that the display driver is given while it starts.

use vstd::prelude::*;

verus! {

/// Period of the 100 MHz reference, in nanoseconds.
pub const PERIOD_NS: u32 = 1_000 / 100;

/// Nanoseconds in a millisecond.
pub const NS_PER_MS: u32 = 1_000_000;

/// Longest delay, in milliseconds, whose nanoseconds fit in 32 bits.
pub const MAX_DELAY_MS: u16 = 4294;

/// The number of cycles to wait for a delay of `ms` milliseconds: the period
/// of the reference divided by the delay, both in nanoseconds.
pub fn ms_to_cycle(ms: u16) -> (cycles: u32)
    requires
        1 <= ms <= MAX_DELAY_MS,
    ensures
        cycles == PERIOD_NS as int / (ms * NS_PER_MS),
{
    let delay: u32 = ms as u32 * NS_PER_MS;
    PERIOD_NS / delay
}

} // verus!
