//! A monotonic clock: its times are plain numbers of nanoseconds.

use vstd::prelude::*;

verus! {

/// How long after `at` it is: nothing where `at` is yet to come.
pub open spec fn elapsed(at: u64, now: u64) -> int {
    if now > at {
        now - at
    } else {
        0
    }
}

/// How long after `at` it is.
pub fn elapsed_since(at: u64, now: u64) -> (r: u64)
    ensures
        r == elapsed(at, now),
{
    if now > at {
        now - at
    } else {
        0
    }
}

} // verus!
