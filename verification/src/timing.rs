//! The planner-side view of the clock: one client-side delay estimate per
//! cache slot, captured for the duration of a scheduling round.

use vstd::prelude::*;

use crate::DELTA_MAX;

verus! {

/// Translates scheduler slot indices into client-side network delay
/// estimates, in milliseconds. The table is captured once per round; the
/// estimates never decrease from one slot to the next.
pub struct TimeManager {
    pub deltas: Vec<u64>,
}

impl TimeManager {
    pub open spec fn wf(self) -> bool {
        &&& forall|i: int, j: int|
            0 <= i < j < self.deltas@.len() ==> self.deltas@[i] <= self.deltas@[j]
        &&& forall|i: int|
            0 <= i < self.deltas@.len() ==> (#[trigger] self.deltas@[i]) <= DELTA_MAX
    }

    /// Captures a per-slot delay table. The estimates must not decrease with
    /// the slot index and must stay within the oracle's time horizon.
    pub fn new(deltas: Vec<u64>) -> (r: Self)
        requires
            forall|i: int, j: int| 0 <= i < j < deltas@.len() ==> deltas@[i] <= deltas@[j],
            forall|i: int| 0 <= i < deltas@.len() ==> (#[trigger] deltas@[i]) <= DELTA_MAX,
        ensures
            r.wf(),
            r.deltas@ == deltas@,
    {
        TimeManager { deltas }
    }

    /// The number of slots the table covers.
    pub fn num_slots(&self) -> (r: usize)
        ensures
            r == self.deltas@.len(),
    {
        self.deltas.len()
    }

    /// The client-side delay estimate for cache slot `slot`, in milliseconds.
    pub fn slot_to_client_delta(&self, slot: usize) -> (r: u64)
        requires
            slot < self.deltas@.len(),
        ensures
            r == self.deltas@[slot as int],
    {
        self.deltas[slot]
    }
}

} // verus!
