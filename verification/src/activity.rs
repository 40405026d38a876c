//! The activity payload used by the standard scoring fixture and by the
//! instance generator: a priority and a topic.

use vstd::prelude::*;

verus! {

use crate::rng::rng_below;

/// One unit of work to be placed into a slot. The engine never inspects it;
/// only the scoring function does.
#[derive(Debug, Clone, Copy, PartialEq, Eq, Hash, Structural)]
pub struct Activity {
    pub priority: usize,
    pub topic: usize,
}

impl Activity {
    /// One activity drawn from the injected random source: a priority up to
    /// 100 and a topic among 1, 2 and 3.
    pub fn random(rng: &mut fastrand::Rng) -> (r: Activity)
        ensures
            r.priority <= 100,
            1 <= r.topic <= 3,
    {
        let priority = rng_below(rng, 101);
        let topic = 1 + rng_below(rng, 3);
        Activity { priority, topic }
    }

    /// `n` random activities, drawn in order from the injected source.
    pub fn randoms(rng: &mut fastrand::Rng, n: usize) -> (r: Vec<Activity>)
        ensures
            r@.len() == n,
            forall|k: int|
                0 <= k < n ==> (#[trigger] r@[k]).priority <= 100 && 1 <= r@[k].topic <= 3,
    {
        let mut r: Vec<Activity> = Vec::new();
        let mut i: usize = 0;
        while i < n
            invariant
                i <= n,
                r@.len() == i,
                forall|k: int|
                    0 <= k < i ==> (#[trigger] r@[k]).priority <= 100 && 1 <= r@[k].topic <= 3,
            decreases n - i,
        {
            r.push(Self::random(rng));
            i = i + 1;
        }
        r
    }
}

} // verus!
