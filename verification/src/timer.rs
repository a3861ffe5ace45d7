//! Time: the cycle counter in milliseconds, and the next timer interrupt.

use vstd::prelude::*;
use crate::config::CLOCK_FREQ;

verus! {

/// Timer interrupts per second.
pub const TICKS_PER_SEC: u64 = 100;

/// Milliseconds per second.
pub const MSEC_PER_SEC: u64 = 1000;

/// The time that the value `ticks` of the cycle counter stands for.
pub fn get_time(ticks: u64) -> (r: u64)
    ensures
        r == ticks,
{
    ticks
}

/// The milliseconds since start that the value `ticks` of the cycle counter stands for.
pub fn get_time_ms(ticks: u64) -> (r: u64)
    ensures
        r == ticks / 12_500,
{
    ticks / (CLOCK_FREQ / MSEC_PER_SEC)
}

/// The value of the cycle counter at which the next timer interrupt is due: a
/// hundredth of a second after `ticks`. The counter wraps around at its end.
pub fn set_next_trigger(ticks: u64) -> (r: u64)
    ensures
        r == (ticks + 125_000) % 0x1_0000_0000_0000_0000,
{
    ticks.wrapping_add(CLOCK_FREQ / TICKS_PER_SEC)
}

} // verus!
