//! A small deterministic workload: the demo application around this library
//! measures how long a call of it takes.

use vstd::prelude::*;

verus! {

/// Counts up one step at a time over the full unsigned 16-bit range and
/// returns the total, which is always `u16::MAX`.
#[must_use]
pub fn function_to_benchmark() -> (r: u16)
    ensures
        r == u16::MAX,
{
    let mut counter: u16 = 0;
    while counter < u16::MAX
        invariant
            counter <= u16::MAX,
        decreases u16::MAX - counter,
    {
        counter = counter + 1;
    }
    counter
}

} // verus!
