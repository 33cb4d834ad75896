//! Time bookkeeping: tick/microsecond conversion, the next timer
//! deadline, and a stopwatch for per-task accounting.  The clock itself
//! is hardware; every function here takes the current tick count as an
//! argument.

use vstd::prelude::*;

use crate::config::CLOCK_FREQ;
use crate::config::MICRO_PER_SEC;
use crate::config::TIMER_FREQ;

verus! {

/// A tick count of the platform clock in microseconds.
pub open spec fn spec_ticks_to_us(ticks: u64) -> u64 {
    ticks / (CLOCK_FREQ / MICRO_PER_SEC)
}

/// Converts a tick count of the platform clock to microseconds.
pub fn ticks_to_us(ticks: u64) -> (r: u64)
    ensures
        r == spec_ticks_to_us(ticks),
{
    ticks / (CLOCK_FREQ / MICRO_PER_SEC)
}

/// The tick at which the next timer interrupt should fire: one
/// interrupt interval after `now`.  The caller hands this deadline to
/// the firmware timer.
pub fn set_next_trigger(now: u64) -> (r: u64)
    requires
        now + CLOCK_FREQ / TIMER_FREQ <= 0xFFFF_FFFF_FFFF_FFFFu64,
    ensures
        r == now + CLOCK_FREQ / TIMER_FREQ,
{
    now + CLOCK_FREQ / TIMER_FREQ
}

/// A stopwatch: remembers the tick of its last reading.  A zero reading
/// means it was never started.
#[derive(Clone, Copy, PartialEq, Eq, Structural, Debug)]
pub struct StopWatch(pub u64);

impl StopWatch {
    /// A stopwatch that was never started.
    pub fn init() -> (r: Self)
        ensures
            r.0 == 0,
    {
        StopWatch(0)
    }

    /// Whether the stopwatch was never started.
    pub fn untouched(&self) -> (r: bool)
        ensures
            r == (self.0 == 0),
    {
        self.0 == 0
    }

    /// Starts the stopwatch at tick `now`.
    pub fn start(&mut self, now: u64)
        ensures
            final(self).0 == now,
    {
        self.0 = now;
    }

    /// Reads the ticks since the last reading and restarts from `now`.
    /// Reading a stopwatch that was never started is a kernel bug.
    pub fn lap(&mut self, now: u64) -> (r: u64)
        requires
            old(self).0 != 0,
            old(self).0 <= now,
        ensures
            r == now - old(self).0,
            final(self).0 == now,
    {
        let ret = now - self.0;
        self.0 = now;
        ret
    }
}

} // verus!
