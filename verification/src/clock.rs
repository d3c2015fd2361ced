//! Time: conversions of the machine's cycle counter and the timer period.
use vstd::prelude::*;

verus! {

/// Cycles per second of the time counter.
pub const CLOCK_FREQ: u64 = 10_000_000;
/// Cycles per microsecond.
pub const MICRO_UNIT: u64 = 10;
/// Cycles per millisecond.
pub const MILLI_UNIT: u64 = 10_000;
/// Cycles per second.
pub const SECOND_UNIT: u64 = 10_000_000;
/// Timer interrupts per second.
pub const INTERRUPT_PER_SEC: u64 = 100;
/// Cycles between two timer interrupts (one time slice, 10 ms).
pub const TIME_INTERVAL: u64 = 100_000;

/// The units agree with the frequency.
pub proof fn lemma_clock_units()
    ensures
        MICRO_UNIT == CLOCK_FREQ / 1_000_000,
        MILLI_UNIT == CLOCK_FREQ / 1_000,
        SECOND_UNIT == CLOCK_FREQ,
        TIME_INTERVAL == CLOCK_FREQ / INTERRUPT_PER_SEC,
{
}

/// Microseconds since power-on, from the cycle counter.
pub fn get_time_us(cycle: u64) -> (r: u64)
    ensures
        r == cycle / MICRO_UNIT,
{
    cycle / MICRO_UNIT
}

/// Milliseconds since power-on, from the cycle counter.
pub fn get_time_ms(cycle: u64) -> (r: u64)
    ensures
        r == cycle / MILLI_UNIT,
{
    cycle / MILLI_UNIT
}

/// Seconds since power-on, from the cycle counter.
pub fn get_time_s(cycle: u64) -> (r: u64)
    ensures
        r == cycle / SECOND_UNIT,
{
    cycle / SECOND_UNIT
}

/// The counter value at which the next timer interrupt is due: one time
/// slice after `cycle`.
pub fn set_next_trigger(cycle: u64) -> (r: u64)
    requires
        cycle + TIME_INTERVAL <= u64::MAX,
    ensures
        r == cycle + TIME_INTERVAL,
{
    cycle + TIME_INTERVAL
}

/// The time of day that user code reads: milliseconds since power-on.
pub fn sys_get_time_of_day(cycle: u64) -> (r: isize)
    requires
        cycle / MILLI_UNIT <= isize::MAX,
    ensures
        r == cycle / MILLI_UNIT,
{
    get_time_ms(cycle) as isize
}

} // verus!
