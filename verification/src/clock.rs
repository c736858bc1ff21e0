//! The cycle clock.
//!
//! The hardware counts cycles in 32 bits and wraps round.  The clock turns
//! its readings into a count of 64 bits that never goes back, which is the
//! time that the scheduler and the button lines work with.  For that it has
//! to see a reading at least once in every turn of the counter.

use vstd::prelude::*;

verus! {

/// Number of cycles in one turn of the hardware counter.
pub const WRAP: u64 = 0x1_0000_0000;

/// Cycles from the count `now` to the next cycle at which the hardware
/// counter reads `reading`.
pub open spec fn cycles_to(now: u64, reading: u32) -> int {
    let low = now % WRAP;
    if reading >= low {
        reading - low
    } else {
        reading + WRAP - low
    }
}

/// The count after the hardware counter read `reading`: the first count at
/// or after `now` that reads so.  At the end of its range the count stands
/// still.
pub open spec fn observed(now: u64, reading: u32) -> u64 {
    if now + cycles_to(now, reading) <= u64::MAX {
        (now + cycles_to(now, reading)) as u64
    } else {
        now
    }
}

/// A count of cycles that never goes back.
pub struct CycleClock {
    now: u64,
}

impl View for CycleClock {
    type V = u64;

    closed spec fn view(&self) -> u64 {
        self.now
    }
}

impl CycleClock {
    /// A clock that starts at the given reading.
    pub fn new(reading: u32) -> (clock: Self)
        ensures
            clock@ == reading,
    {
        CycleClock { now: reading as u64 }
    }

    /// Takes a reading of the hardware counter and returns the count.
    pub fn observe(&mut self, reading: u32) -> (now: u64)
        ensures
            final(self)@ == observed(old(self)@, reading),
            now == final(self)@,
    {
        let low = (self.now % WRAP) as u32;
        let ahead: u64 = if reading >= low {
            (reading - low) as u64
        } else {
            reading as u64 + WRAP - low as u64
        };
        if ahead <= u64::MAX - self.now {
            self.now = self.now + ahead;
        }
        self.now
    }

    /// The count at the last reading.
    pub fn now(&self) -> (now: u64)
        ensures
            now == self@,
    {
        self.now
    }
}

/// The count never goes back, moves by less than one turn of the counter,
/// and agrees with the reading wherever it is within its range.
pub proof fn lemma_observed(now: u64, reading: u32)
    ensures
        now <= observed(now, reading) < now + WRAP,
        now + cycles_to(now, reading) <= u64::MAX ==> observed(now, reading) % WRAP == reading,
        now % WRAP == reading ==> observed(now, reading) == now,
{
    let low = now % WRAP;
    let ahead = cycles_to(now, reading);
    if now + ahead <= u64::MAX {
        let q = now as int / WRAP as int;
        let k = if reading >= low {
            q
        } else {
            q + 1
        };
        vstd::arithmetic::div_mod::lemma_fundamental_div_mod(now as int, WRAP as int);
        assert(now + ahead == k * WRAP + reading) by (nonlinear_arith)
            requires
                now == WRAP * q + low,
                ahead == (if reading >= low {
                    reading - low
                } else {
                    reading + WRAP - low
                }),
                k == (if reading >= low {
                    q
                } else {
                    q + 1
                }),
        ;
        vstd::arithmetic::div_mod::lemma_fundamental_div_mod_converse(
            now + ahead,
            WRAP as int,
            k,
            reading as int,
        );
    }
}

} // verus!
