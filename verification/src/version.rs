//! Version allocation: a counter whose values are strictly increasing and
//! never reused. A version doubles as a transaction identifier.

use vstd::prelude::*;

verus! {

/// Hand out the next version and advance the counter: the value returned is
/// strictly greater than every value returned before it.
pub fn acquire_next_version(counter: &mut u64) -> (v: u64)
    requires
        *old(counter) < u64::MAX,
    ensures
        v == *old(counter),
        *final(counter) == *old(counter) + 1,
{
    let v = *counter;
    *counter = *counter + 1;
    v
}

} // verus!
