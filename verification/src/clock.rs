//! The once-a-second clock tick.
use vstd::prelude::*;

verus! {

/// The event raised when the wall clock enters a new second; it carries that second.
#[derive(Debug, Clone, Copy, PartialEq, Eq, Structural)]
pub struct SecondTick(pub u32);

/// The second remembered and the tick raised after reading second `now`, when `last_sec`
/// was the second remembered before: a tick exactly when the second changed.
pub open spec fn clock_step(last_sec: Option<u32>, now: u32) -> (Option<u32>, Option<SecondTick>) {
    if last_sec != Some(now) {
        (Some(now), Some(SecondTick(now)))
    } else {
        (last_sec, None)
    }
}

/// Reacts to a reading `now` of the wall clock's second: when it differs from the last
/// second seen, that second is remembered and a tick for it is raised.
pub fn clock_system(last_sec: &mut Option<u32>, now: u32) -> (tick: Option<SecondTick>)
    ensures
        (*final(last_sec), tick) == clock_step(*old(last_sec), now),
{
    if Some(now) != *last_sec {
        *last_sec = Some(now);
        Some(SecondTick(now))
    } else {
        None
    }
}

/// Whatever was remembered before, after a reading the clock remembers that second, and a
/// second reading of the same second raises no tick: each second is ticked at most once
/// in a row.
pub proof fn lemma_tick_once(last_sec: Option<u32>, now: u32)
    ensures
        clock_step(last_sec, now).0 == Some(now),
        clock_step(clock_step(last_sec, now).0, now).1 is None,
{
}

} // verus!
