//! Heartbeat timing. The periodic task itself is cooperative plumbing run
//! by the surrounding process; the library fixes what it may rely on: the
//! wire interval is in deciseconds, and an interval of zero schedules
//! nothing at all (see [`crate::session::session_step`], which emits no
//! heartbeat action for it).

use vstd::prelude::*;

verus! {

/// The timer period for an accepted WantHeartbeat interval, in
/// milliseconds. The computation cannot overflow for any 32-bit interval.
pub fn period_millis(interval: u32) -> (ms: u64)
    ensures
        ms == interval as u64 * 100,
{
    (interval as u64) * 100
}

} // verus!
