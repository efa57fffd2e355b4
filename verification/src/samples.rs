//! Code of the kind that the engine is run on, where it can be proved.
use vstd::prelude::*;

verus! {

/// What each thread of a pool does once it holds the lock on the shared
/// counter: it counts itself. The caller takes the lock and gives it up
/// again; the counter must have room for one more.
pub fn worker(counter: &mut u32)
    requires
        *old(counter) < u32::MAX,
    ensures
        *final(counter) == *old(counter) + 1,
{
    *counter = *counter + 1;
}

} // verus!
