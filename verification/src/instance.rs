//! One problem instance as the external generator describes it: an
//! identifier, the grid dimensions, and the activities to place.

use vstd::prelude::*;

verus! {

/// A named slot-assignment problem: build the schedule grid from
/// `(nplaces, ntimes, activities)` and hand it to the engine.
#[derive(Debug)]
pub struct SchedulingInstance<A> {
    pub id: String,
    pub nplaces: usize,
    pub ntimes: usize,
    pub activities: Vec<A>,
}

} // verus!
