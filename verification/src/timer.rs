//! Countdown timers measured in engine ticks.
use vstd::prelude::*;

verus! {

/// A countdown timer measured in engine ticks.
#[derive(Clone, Copy, Debug, PartialEq, Eq, Default)]
pub struct CfTimer {
    pub tick: u32,
}

/// Converts a number of seconds into engine ticks, `ticks_per_second` being the
/// configured tick rate. The product wraps at 32 bits.
pub fn cf_timer_sec2ticks(sec: u32, ticks_per_second: u32) -> (ticks: u32)
    ensures
        ticks == (sec * ticks_per_second) % 0x1_0000_0000,
{
    sec.wrapping_mul(ticks_per_second)
}

/// Arms `timer` to expire `rel_sec` seconds from now.
pub fn cf_timer_init_rel_sec(timer: &mut CfTimer, rel_sec: u32, ticks_per_second: u32)
    ensures
        final(timer).tick == (rel_sec * ticks_per_second) % 0x1_0000_0000,
{
    timer.tick = cf_timer_sec2ticks(rel_sec, ticks_per_second);
}

/// 1 when the timer has run out, 0 otherwise.
pub fn cf_timer_expired(timer: &CfTimer) -> (r: i32)
    ensures
        r == (if timer.tick == 0 { 1i32 } else { 0i32 }),
{
    if timer.tick == 0 {
        1
    } else {
        0
    }
}

/// Counts one tick off a running timer.
pub fn cf_timer_tick(timer: &mut CfTimer)
    requires
        old(timer).tick != 0,
    ensures
        final(timer).tick == old(timer).tick - 1,
{
    timer.tick = timer.tick - 1;
}

} // verus!
