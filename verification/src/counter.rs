//! Counters that stop at the largest value instead of wrapping round.

use vstd::prelude::*;

verus! {

/// `n` as a counter: itself as long as it fits, and `u64::MAX` from there on.
pub open spec fn stopped(n: int) -> u64 {
    if n > u64::MAX {
        u64::MAX
    } else {
        n as u64
    }
}

} // verus!
