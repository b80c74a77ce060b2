//! How long a tick lasts, and what is left of it.

use vstd::prelude::*;

verus! {

/// The length of a tick in nanoseconds: a sixtieth of a second, in single precision.
pub const TICK_NANOS: u64 = 16_666_668;

/// The nanoseconds to wait after a tick that took `elapsed`: what is left of the tick, if anything
/// is.
pub open spec fn left_of_tick(elapsed: u128) -> Option<u64> {
    if elapsed < TICK_NANOS {
        Some((TICK_NANOS - elapsed) as u64)
    } else {
        None
    }
}

/// Whether a tick that took `elapsed` nanoseconds took too long.
pub open spec fn took_too_long(elapsed: u128) -> bool {
    elapsed > TICK_NANOS
}

/// A tick and the wait after it fill the length of a tick, unless the tick took too long.
pub proof fn law_ticks_are_filled(elapsed: u128)
    ensures
        took_too_long(elapsed) ==> left_of_tick(elapsed) is None,
        !took_too_long(elapsed) ==> elapsed + match left_of_tick(elapsed) {
            Some(wait) => wait as int,
            None => 0,
        } == TICK_NANOS,
{
}

/// A tick has a length of 16,666,668 nanoseconds. One that was shorter leaves the rest to wait for,
/// and one that was longer took too long.
pub proof fn law_tick_length(elapsed: u128)
    ensures
        took_too_long(elapsed) <==> elapsed > 16_666_668,
        left_of_tick(elapsed) is Some <==> elapsed < 16_666_668,
        elapsed < 16_666_668 ==> left_of_tick(elapsed) == Some((16_666_668 - elapsed) as u64),
{
}

/// The nanoseconds to wait after a tick that took `elapsed`, if any.
pub fn wait_after(elapsed: u128) -> (wait: Option<u64>)
    ensures
        wait == left_of_tick(elapsed),
{
    if elapsed < TICK_NANOS as u128 {
        Some(TICK_NANOS - elapsed as u64)
    } else {
        None
    }
}

/// Whether a tick that took `elapsed` nanoseconds took too long.
pub fn is_overdue(elapsed: u128) -> (overdue: bool)
    ensures
        overdue == took_too_long(elapsed),
{
    elapsed > TICK_NANOS as u128
}

} // verus!
