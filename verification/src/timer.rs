//! The platform clock as the kernel sees it: the monotonic counter the
//! hardware advances, and the one-shot comparator that raises the next
//! timer interrupt.  Advancing the counter is the hardware's doing and
//! enters the model as an explicit event.

use vstd::prelude::*;

use crate::config::CLOCK_FREQ;

verus! {

/// Timer interrupts per second: one every ten milliseconds.
pub const TIME_SLICE_COUNT: u64 = 100;

/// The machine timer: the free-running counter and the programmed
/// deadline.
pub struct Timer {
    mtime: u64,
    mtimecmp: u64,
}

impl Timer {
    /// Current counter value.
    pub closed spec fn spec_time(self) -> u64 {
        self.mtime
    }

    /// Programmed deadline.
    pub closed spec fn spec_deadline(self) -> u64 {
        self.mtimecmp
    }

    /// The timer interrupt condition: the counter has reached the
    /// deadline.
    pub open spec fn pending(self) -> bool {
        self.spec_time() >= self.spec_deadline()
    }

    /// The clock as the kernel first sees it.
    pub fn new() -> (r: Timer)
        ensures
            r.spec_time() == 0,
            r.spec_deadline() == 0,
    {
        Timer { mtime: 0, mtimecmp: 0 }
    }

    /// The hardware counter ticking forward: time never runs backwards.
    pub fn advance(&mut self, delta: u64)
        requires
            old(self).spec_time() + delta <= u64::MAX,
        ensures
            final(self).spec_time() == old(self).spec_time() + delta,
            final(self).spec_deadline() == old(self).spec_deadline(),
    {
        self.mtime = self.mtime + delta;
    }

    /// Whether the timer interrupt condition holds.
    pub fn is_pending(&self) -> (r: bool)
        ensures
            r == self.pending(),
    {
        self.mtime >= self.mtimecmp
    }
}

/// Reads the machine timer counter.
pub fn get_time(timer: &Timer) -> (r: u64)
    ensures
        r == timer.spec_time(),
{
    timer.mtime
}

/// Arms the next timer interrupt one time slice — ten milliseconds —
/// past the current counter value, enabling preemptive slicing.
pub fn set_next_trigger(timer: &mut Timer)
    requires
        old(timer).spec_time() + CLOCK_FREQ / TIME_SLICE_COUNT <= u64::MAX,
    ensures
        final(timer).spec_time() == old(timer).spec_time(),
        final(timer).spec_deadline() == old(timer).spec_time() + CLOCK_FREQ / TIME_SLICE_COUNT,
{
    timer.mtimecmp = timer.mtime + CLOCK_FREQ / TIME_SLICE_COUNT;
}

/// Milliseconds since boot, as the counter divided by the tick rate.
pub fn get_time_ms(timer: &Timer) -> (r: u64)
    ensures
        r == timer.spec_time() / (CLOCK_FREQ / 1000),
{
    timer.mtime / (CLOCK_FREQ / 1000)
}

/// The millisecond clock never runs backwards: a later counter value
/// reads as an equal or later millisecond value, however many yields and
/// busy loops pass between the two readings.
pub proof fn lemma_time_ms_monotonic(t1: u64, t2: u64)
    requires
        t1 <= t2,
    ensures
        t1 / (CLOCK_FREQ / 1000) <= t2 / (CLOCK_FREQ / 1000),
{
    vstd::arithmetic::div_mod::lemma_div_is_ordered(t1 as int, t2 as int, CLOCK_FREQ as int / 1000);
}

} // verus!
