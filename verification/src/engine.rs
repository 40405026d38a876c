//! The local-search engine and restart controller: bounded best-improvement
//! neighborhood search over the schedule grid, optional randomized noise
//! probes, multi-restart escape from local optima with best-snapshot
//! tracking, budget division, and a wall-clock cutoff.

use vstd::prelude::*;

verus! {

use crate::schedule::{GridView, Loc, Schedule};
use crate::schedule::lemma_swapped_involutive;
use crate::rng::rng_below;

/// `r` is a penalty the scoring function can report for a grid in state `v`.
pub open spec fn possible_penalty<A, F: Fn(&Schedule<A>) -> u64>(
    pf: F,
    v: GridView<A>,
    r: u64,
) -> bool {
    exists|w: &Schedule<A>| w@ == v && call_ensures(pf, (w,), r)
}

/// The scoring function accepts every grid the engine can reach from `v0`:
/// every well-formed grid of the same shape holding the same payloads.
pub open spec fn callable_on<A, F: Fn(&Schedule<A>) -> u64>(pf: F, v0: GridView<A>) -> bool {
    forall|w: &Schedule<A>|
        (w@.wf() && w@.same_shape(v0) && w@.payloads() == v0.payloads()) ==> #[trigger] call_requires(
            pf,
            (w,),
        )
}

/// Exchanging `l1` and `l2` in `v` can report a score of `r` or more.
pub open spec fn neighbor_bound<A, F: Fn(&Schedule<A>) -> u64>(
    pf: F,
    v: GridView<A>,
    l1: Loc,
    l2: Loc,
    r: u64,
) -> bool {
    exists|rp: u64| possible_penalty(pf, v.swapped(l1, l2), rp) && r <= rp
}

/// `r` is at or below some reported score of every one-swap neighbor of
/// `v`: the guarantee one full best-improvement scan of `v` leaves behind.
pub open spec fn at_most_neighbors<A, F: Fn(&Schedule<A>) -> u64>(
    pf: F,
    v: GridView<A>,
    r: u64,
) -> bool {
    forall|l1: Loc, l2: Loc|
        (l1.in_bounds(v) && l2.in_bounds(v)) ==> #[trigger] neighbor_bound(pf, v, l1, l2, r)
}

/// No single swap of `v` can report a score strictly below `r0`: the grid is
/// a local optimum of the scoring function.
pub open spec fn local_optimum<A, F: Fn(&Schedule<A>) -> u64>(
    pf: F,
    v: GridView<A>,
    r0: u64,
) -> bool {
    forall|l1: Loc, l2: Loc, rp: u64|
        (l1.in_bounds(v) && l2.in_bounds(v) && #[trigger] possible_penalty(
            pf,
            v.swapped(l1, l2),
            rp,
        )) ==> rp >= r0
}

/// The one-scan guarantee survives any further improvement.
proof fn lemma_at_most_neighbors_mono<A, F: Fn(&Schedule<A>) -> u64>(
    pf: F,
    v: GridView<A>,
    r1: u64,
    r2: u64,
)
    requires
        at_most_neighbors(pf, v, r1),
        r2 <= r1,
    ensures
        at_most_neighbors(pf, v, r2),
{
    assert forall|l1: Loc, l2: Loc| (l1.in_bounds(v) && l2.in_bounds(v)) implies neighbor_bound(
        pf,
        v,
        l1,
        l2,
        r2,
    ) by {
        assert(neighbor_bound(pf, v, l1, l2, r1));
        let rp = choose|rp: u64| possible_penalty(pf, v.swapped(l1, l2), rp) && r1 <= rp;
        assert(possible_penalty(pf, v.swapped(l1, l2), rp) && r2 <= rp);
    }
}

/// A grid with no locations at all has no one-swap neighbors to speak of.
proof fn lemma_no_locations_vacuous<A, F: Fn(&Schedule<A>) -> u64>(pf: F, v: GridView<A>, r: u64)
    requires
        v.wf(),
        v.total_locs() == 0,
    ensures
        at_most_neighbors(pf, v, r),
{
    assert forall|l1: Loc, l2: Loc| (l1.in_bounds(v) && l2.in_bounds(v)) implies neighbor_bound(
        pf,
        v,
        l1,
        l2,
        r,
    ) by {
        if let Loc::Cell(p, t) = l1 {
            crate::schedule::lemma_cell_index_bound(
                p as int,
                t as int,
                v.nplaces as int,
                v.ntimes as int,
            );
            assert(false);
        }
        assert(false);
    }
}

/// One run more than the restart count (`None` meaning zero restarts),
/// capped at the machine limit of the run counter.
pub open spec fn runs_for(restarts: Option<usize>) -> int {
    let r = match restarts {
        Some(n) => n as int,
        None => 0int,
    };
    if r + 1 <= usize::MAX {
        r + 1
    } else {
        usize::MAX as int
    }
}

/// One immutable search configuration, assembled by the fluent builder
/// methods: swap-budget override, noise toggle, restart count with its
/// allocation policy, and wall-clock timeout.
#[derive(Debug, Clone, Copy)]
pub struct Config {
    /// Swap budget; `None` means the generous default of `2 * ntotal^3`.
    pub nswaps: Option<usize>,
    /// Interleave randomized noise probes with the exhaustive scans.
    pub noise: bool,
    /// Number of additional randomized restarts; `None` means none.
    pub restarts: Option<usize>,
    /// Divide one total swap budget evenly across all runs instead of
    /// giving every run the full budget.
    pub proportional: bool,
    /// Wall-clock cutoff, checked only at run boundaries.
    pub timeout_millis: Option<u64>,
}

impl Config {
    /// The restart count as a number, `None` meaning zero.
    pub open spec fn spec_restarts(self) -> int {
        match self.restarts {
            Some(r) => r as int,
            None => 0,
        }
    }

    /// How many runs the controller performs when no cutoff stops it.
    pub open spec fn spec_total_runs(self) -> int {
        runs_for(self.restarts)
    }

    /// The defaults: unlimited-by-default budget, no noise, no restarts,
    /// uniform allocation, no timeout.
    pub fn new() -> (r: Config)
        ensures
            r == (Config {
                nswaps: None::<usize>,
                noise: false,
                restarts: None::<usize>,
                proportional: false,
                timeout_millis: None::<u64>,
            }),
    {
        Config { nswaps: None, noise: false, restarts: None, proportional: false, timeout_millis: None }
    }

    /// Overrides the swap budget.
    pub fn max_swaps(self, n: usize) -> (r: Config)
        ensures
            r == (Config { nswaps: Some(n), ..self }),
    {
        Config { nswaps: Some(n), ..self }
    }

    /// Enables randomized noise probes.
    pub fn with_noise(self) -> (r: Config)
        ensures
            r == (Config { noise: true, ..self }),
    {
        Config { noise: true, ..self }
    }

    /// Selects `n` additional restarts, every run keeping the full budget.
    pub fn restarts(self, n: usize) -> (r: Config)
        ensures
            r == (Config { restarts: Some(n), proportional: false, ..self }),
    {
        Config { restarts: Some(n), proportional: false, ..self }
    }

    /// Selects `n` additional restarts, dividing one total swap budget
    /// evenly across the runs so more restarts do not mean more work.
    pub fn restarts_proportional(self, n: usize) -> (r: Config)
        ensures
            r == (Config { restarts: Some(n), proportional: true, ..self }),
    {
        Config { restarts: Some(n), proportional: true, ..self }
    }

    /// Sets the wall-clock cutoff, in milliseconds.
    pub fn timeout_millis(self, ms: u64) -> (r: Config)
        ensures
            r == (Config { timeout_millis: Some(ms), ..self }),
    {
        Config { timeout_millis: Some(ms), ..self }
    }
}

impl Default for Config {
    fn default() -> (r: Config)
        ensures
            r == (Config {
                nswaps: None::<usize>,
                noise: false,
                restarts: None::<usize>,
                proportional: false,
                timeout_millis: None::<u64>,
            }),
    {
        Config::new()
    }
}

/// What one engine invocation observed: the penalty of the grid it started
/// from and the penalty at the completion of each run that was performed.
pub struct RunLog {
    pub initial: u64,
    pub runs: Seq<u64>,
}

/// A caller-supplied scoring contract: a pure function of the grid's state.
/// The engine only ever calls it; implementors say what it is as a spec-level
/// function of the grid view, so that equal states always score equally.
pub trait Penalty: View + Sized {
    /// The penalty as a mathematical function of the grid's state.
    spec fn spec_penalty(v: Self::V) -> u64;

    /// What the scorer needs of the state it is handed (at most
    /// well-formedness: the engine scores only well-formed grids).
    spec fn penalty_ready(v: Self::V) -> bool;

    /// Computes the penalty of the current state.
    fn penalty(&self) -> (r: u64)
        requires
            Self::penalty_ready(self@),
        ensures
            r == Self::spec_penalty(self@),
    ;
}

impl<A: Copy> Schedule<A> {
    /// The number of locations, grid cells and overflow slots together.
    pub fn total_locations(&self) -> (r: usize)
        requires
            self@.total_locs() <= usize::MAX,
        ensures
            r == self@.total_locs(),
    {
        self.slots().len() + self.overflow_len()
    }

    /// The full fixed list of location addresses: grid cells in row-major
    /// order, then the overflow slots. Every in-bounds address appears.
    fn build_locations(&self) -> (r: Vec<Loc>)
        requires
            self@.wf(),
            self@.total_locs() <= usize::MAX,
        ensures
            r@.len() == self@.total_locs(),
            forall|q: int| 0 <= q < r@.len() ==> (#[trigger] r@[q]).in_bounds(self@),
            forall|l: Loc|
                l.in_bounds(self@) ==> exists|q: int| 0 <= q < r@.len() && r@[q] == l,
    {
        let (nplaces, ntimes) = self.dimensions();
        let mut r: Vec<Loc> = Vec::new();
        let mut p: usize = 0;
        while p < nplaces
            invariant
                p <= nplaces,
                nplaces == self@.nplaces,
                ntimes == self@.ntimes,
                self@.wf(),
                self@.total_locs() <= usize::MAX,
                r@.len() == p * ntimes,
                forall|q: int| 0 <= q < r@.len() ==> (#[trigger] r@[q]).in_bounds(self@),
                forall|pp: usize, tt: usize|
                    tt < ntimes && pp * ntimes + tt < r@.len() ==> r@[pp * ntimes + tt]
                        == Loc::Cell(pp, tt),
            decreases nplaces - p,
        {
            let mut t: usize = 0;
            while t < ntimes
                invariant
                    t <= ntimes,
                    p < nplaces,
                    nplaces == self@.nplaces,
                    ntimes == self@.ntimes,
                    self@.wf(),
                    self@.total_locs() <= usize::MAX,
                    r@.len() == p * ntimes + t,
                    forall|q: int| 0 <= q < r@.len() ==> (#[trigger] r@[q]).in_bounds(self@),
                    forall|pp: usize, tt: usize|
                        tt < ntimes && pp * ntimes + tt < r@.len() ==> r@[pp * ntimes + tt]
                            == Loc::Cell(pp, tt),
                decreases ntimes - t,
            {
                proof {
                    crate::schedule::lemma_cell_index_bound(
                        p as int,
                        t as int,
                        nplaces as int,
                        ntimes as int,
                    );
                    assert(p * ntimes + t < self@.slots.len());
                    assert(self@.slots.len() <= self@.total_locs());
                }
                let ghost before = r@;
                r.push(Loc::Cell(p, t));
                proof {
                    assert forall|pp: usize, tt: usize|
                        tt < ntimes && pp * ntimes + tt < r@.len() implies r@[pp * ntimes + tt]
                        == Loc::Cell(pp, tt) by {
                        if pp * ntimes + tt < before.len() {
                            assert(r@[pp * ntimes + tt] == before[pp * ntimes + tt]);
                        } else {
                            assert(pp * ntimes + tt == p * ntimes + t);
                            assert(pp == p && tt == t) by (nonlinear_arith)
                                requires
                                    pp * ntimes + tt == p * ntimes + t,
                                    tt < ntimes,
                                    t < ntimes,
                                    pp >= 0,
                                    p >= 0,
                            ;
                        }
                    }
                }
                t = t + 1;
            }
            p = p + 1;
            proof {
                assert(p * ntimes == (p - 1) * ntimes + ntimes) by (nonlinear_arith);
            }
        }
        proof {
            assert(r@.len() == self@.capacity());
        }
        let novf = self.overflow_len();
        let mut u: usize = 0;
        while u < novf
            invariant
                u <= novf,
                novf == self@.unscheduled.len(),
                nplaces == self@.nplaces,
                ntimes == self@.ntimes,
                self@.wf(),
                self@.total_locs() <= usize::MAX,
                r@.len() == self@.capacity() + u,
                forall|q: int| 0 <= q < r@.len() ==> (#[trigger] r@[q]).in_bounds(self@),
                forall|pp: usize, tt: usize|
                    tt < ntimes && pp * ntimes + tt < self@.capacity() ==> r@[pp * ntimes + tt]
                        == Loc::Cell(pp, tt),
                forall|ii: usize| ii < u ==> r@[self@.capacity() + ii] == Loc::Over(ii),
            decreases novf - u,
        {
            r.push(Loc::Over(u));
            u = u + 1;
        }
        proof {
            assert forall|l: Loc| l.in_bounds(self@) implies exists|q: int|
                0 <= q < r@.len() && r@[q] == l by {
                match l {
                    Loc::Cell(cp, ct) => {
                        crate::schedule::lemma_cell_index_bound(
                            cp as int,
                            ct as int,
                            nplaces as int,
                            ntimes as int,
                        );
                        assert(r@[cp * ntimes + ct] == Loc::Cell(cp, ct));
                        assert(r@[cp * ntimes + ct] == l);
                    },
                    Loc::Over(ci) => {
                        assert(r@[self@.capacity() + ci] == Loc::Over(ci));
                        assert(r@[self@.capacity() + ci] == l);
                    },
                }
            }
        }
        r
    }

    /// One bounded local-search run: up to the swap budget, repeat either a
    /// noise probe (a random address pair, kept only when strictly
    /// improving) or a full best-improvement scan over all unordered address
    /// pairs, committing the single best strictly-improving swap found, if
    /// any. Non-improving trial swaps are always reverted, so the tracked
    /// penalty never rises; a zero budget leaves the grid untouched. With
    /// noise off and a budget, the result scores no worse than any one-swap
    /// neighbor of the start, and a grid that no single swap improves comes
    /// back exactly as it went in. Returns the final penalty and, as ghost
    /// data, the initial one.
    fn improve_single_with<F: Fn(&Schedule<A>) -> u64>(
        &mut self,
        pf: &F,
        rng: &mut fastrand::Rng,
        nswaps: Option<usize>,
        noise: bool,
    ) -> (out: (u64, Ghost<u64>))
        requires
            old(self)@.wf(),
            old(self)@.total_locs() <= usize::MAX,
            callable_on(*pf, old(self)@),
        ensures
            final(self)@.wf(),
            final(self)@.same_shape(old(self)@),
            final(self)@.payloads() == old(self)@.payloads(),
            possible_penalty(*pf, old(self)@, out.1@),
            possible_penalty(*pf, final(self)@, out.0),
            out.0 <= out.1@,
            nswaps == Some(0usize) ==> final(self)@ == old(self)@,
            (!noise && nswaps != Some(0usize)) ==> at_most_neighbors(*pf, old(self)@, out.0),
            (!noise && local_optimum(*pf, old(self)@, out.1@)) ==> (final(self)@ == old(self)@
                && out.0 == out.1@),
            (!noise && nswaps == Some(1usize)) ==> (final(self)@ == old(self)@ || exists|l1: Loc, l2: Loc|
                l1.in_bounds(old(self)@) && l2.in_bounds(old(self)@) && final(self)@ == old(
                    self,
                )@.swapped(l1, l2)),
    {
        let ghost v0 = old(self)@;
        let locations = self.build_locations();
        let ntotal = self.total_locations();
        let budget: usize = match nswaps {
            Some(b) => b,
            None => default_budget(ntotal),
        };
        let penalty0 = pf(&*self);
        proof {
            let w = &*self;
            assert(w@ == v0 && call_ensures(*pf, (w,), penalty0));
        }
        let mut penalty = penalty0;
        let mut it: usize = 0;
        while it < budget
            invariant
                self@.wf(),
                self@.same_shape(v0),
                self@.payloads() == v0.payloads(),
                callable_on(*pf, v0),
                locations@.len() == ntotal,
                ntotal as int == v0.total_locs(),
                forall|q: int| 0 <= q < locations@.len() ==> (#[trigger] locations@[q]).in_bounds(v0),
                forall|l: Loc|
                    #[trigger] l.in_bounds(v0) ==> exists|q: int|
                        0 <= q < locations@.len() && locations@[q] == l,
                possible_penalty(*pf, self@, penalty),
                penalty <= penalty0,
                possible_penalty(*pf, v0, penalty0),
                it == 0 ==> self@ == v0,
                it <= budget,
                (!noise && it >= 1) ==> at_most_neighbors(*pf, v0, penalty),
                (!noise && local_optimum(*pf, v0, penalty0)) ==> (self@ == v0 && penalty
                    == penalty0),
                (!noise && it == 1) ==> (self@ == v0 || exists|l1: Loc, l2: Loc|
                    l1.in_bounds(v0) && l2.in_bounds(v0) && self@ == v0.swapped(l1, l2)),
            decreases budget - it,
        {
            let ghost penalty_at_entry = penalty;
            let mut scanned = true;
            if noise && ntotal > 0 {
                let coin = rng_below(rng, 2);
                if coin == 0 {
                    scanned = false;
                    let ri = rng_below(rng, ntotal);
                    let rj = rng_below(rng, ntotal);
                    let l1 = locations[ri];
                    let l2 = locations[rj];
                    proof {
                        assert(l1.in_bounds(self@));
                        assert(l2.in_bounds(self@));
                    }
                    let ghost before = self@;
                    self.swap_locations(l1, l2);
                    let np = pf(&*self);
                    if np < penalty {
                        penalty = np;
                        proof {
                            let w = &*self;
                            assert(w@ == self@ && call_ensures(*pf, (w,), np));
                        }
                    } else {
                        self.swap_locations(l2, l1);
                        proof {
                            lemma_swapped_involutive(before, l1, l2);
                            assert(self@ == before);
                        }
                    }
                }
            }
            if scanned {
                let ghost snap = self@;
                let mut best_i: usize = 0;
                let mut best_j: usize = 1;
                let mut cur_penalty = penalty;
                let mut si: usize = 0;
                while si < ntotal
                    invariant
                        self@ == snap,
                        snap.wf(),
                        snap.same_shape(v0),
                        snap.payloads() == v0.payloads(),
                        callable_on(*pf, v0),
                        locations@.len() == ntotal,
                        ntotal as int == v0.total_locs(),
                        forall|q: int|
                            0 <= q < locations@.len() ==> (#[trigger] locations@[q]).in_bounds(v0),
                        possible_penalty(*pf, snap, penalty),
                        cur_penalty <= penalty,
                        cur_penalty < penalty ==> best_i < ntotal && best_j < ntotal
                            && possible_penalty(
                            *pf,
                            snap.swapped(locations@[best_i as int], locations@[best_j as int]),
                            cur_penalty,
                        ),
                        si <= ntotal,
                        forall|i: int, j: int|
                            (0 <= i < j < ntotal && i < si) ==> #[trigger] neighbor_bound(
                                *pf,
                                snap,
                                locations@[i],
                                locations@[j],
                                cur_penalty,
                            ),
                        (!noise && local_optimum(*pf, v0, penalty0)) ==> (snap == v0 && penalty
                            == penalty0 && cur_penalty == penalty0),
                    decreases ntotal - si,
                {
                    let mut sj: usize = si + 1;
                    while sj < ntotal
                        invariant
                            self@ == snap,
                            snap.wf(),
                            snap.same_shape(v0),
                            snap.payloads() == v0.payloads(),
                            callable_on(*pf, v0),
                            locations@.len() == ntotal,
                            ntotal as int == v0.total_locs(),
                            forall|q: int|
                                0 <= q < locations@.len() ==> (#[trigger] locations@[q]).in_bounds(
                                    v0,
                                ),
                            possible_penalty(*pf, snap, penalty),
                            cur_penalty <= penalty,
                            cur_penalty < penalty ==> best_i < ntotal && best_j < ntotal
                                && possible_penalty(
                                *pf,
                                snap.swapped(locations@[best_i as int], locations@[best_j as int]),
                                cur_penalty,
                            ),
                            si < ntotal,
                            si < sj,
                            sj <= ntotal,
                            forall|i: int, j: int|
                                (0 <= i < j < ntotal && (i < si || (i == si && j < sj)))
                                    ==> #[trigger] neighbor_bound(
                                    *pf,
                                    snap,
                                    locations@[i],
                                    locations@[j],
                                    cur_penalty,
                                ),
                            (!noise && local_optimum(*pf, v0, penalty0)) ==> (snap == v0 && penalty
                                == penalty0 && cur_penalty == penalty0),
                        decreases ntotal - sj,
                    {
                        let l1 = locations[si];
                        let l2 = locations[sj];
                        proof {
                            assert(l1.in_bounds(self@));
                            assert(l2.in_bounds(self@));
                        }
                        self.swap_locations(l1, l2);
                        let np = pf(&*self);
                        proof {
                            let w = &*self;
                            assert(w@ == snap.swapped(l1, l2) && call_ensures(*pf, (w,), np));
                            assert(possible_penalty(*pf, snap.swapped(l1, l2), np));
                            if !noise && local_optimum(*pf, v0, penalty0) {
                                assert(possible_penalty(*pf, v0.swapped(l1, l2), np));
                                assert(np >= penalty0);
                            }
                        }
                        let ghost cur_before = cur_penalty;
                        if cur_penalty > np {
                            best_i = si;
                            best_j = sj;
                            cur_penalty = np;
                        }
                        self.swap_locations(l2, l1);
                        proof {
                            lemma_swapped_involutive(snap, l1, l2);
                            assert(self@ == snap);
                            assert(cur_penalty <= np);
                            assert(neighbor_bound(*pf, snap, l1, l2, cur_penalty));
                            assert forall|i: int, j: int|
                                (0 <= i < j < ntotal && (i < si || (i == si && j < sj + 1)))
                                    implies neighbor_bound(
                                *pf,
                                snap,
                                locations@[i],
                                locations@[j],
                                cur_penalty,
                            ) by {
                                if i == si && j == sj {
                                } else {
                                    assert(neighbor_bound(
                                        *pf,
                                        snap,
                                        locations@[i],
                                        locations@[j],
                                        cur_before,
                                    ));
                                    let rp = choose|rp: u64|
                                        possible_penalty(
                                            *pf,
                                            snap.swapped(locations@[i], locations@[j]),
                                            rp,
                                        ) && cur_before <= rp;
                                    assert(possible_penalty(
                                        *pf,
                                        snap.swapped(locations@[i], locations@[j]),
                                        rp,
                                    ) && cur_penalty <= rp);
                                }
                            }
                        }
                        sj = sj + 1;
                    }
                    si = si + 1;
                }
                if cur_penalty < penalty {
                    let l1 = locations[best_i];
                    let l2 = locations[best_j];
                    proof {
                        assert(l1.in_bounds(self@));
                        assert(l2.in_bounds(self@));
                    }
                    self.swap_locations(l1, l2);
                    penalty = cur_penalty;
                }
                proof {
                    if !noise {
                        assert(penalty == cur_penalty);
                        if it == 0 {
                            assert(snap == v0);
                            assert forall|l1: Loc, l2: Loc|
                                (l1.in_bounds(v0) && l2.in_bounds(v0)) implies neighbor_bound(
                                *pf,
                                v0,
                                l1,
                                l2,
                                penalty,
                            ) by {
                                if l1 == l2 {
                                    crate::schedule::lemma_swapped_identity(v0, l1);
                                    assert(possible_penalty(*pf, v0.swapped(l1, l2), penalty0)
                                        && penalty <= penalty0);
                                } else {
                                    let q1 = choose|q: int|
                                        0 <= q < locations@.len() && locations@[q] == l1;
                                    let q2 = choose|q: int|
                                        0 <= q < locations@.len() && locations@[q] == l2;
                                    assert(locations@[q1] == l1 && locations@[q2] == l2);
                                    assert(q1 != q2);
                                    if q1 < q2 {
                                        assert(neighbor_bound(
                                            *pf,
                                            snap,
                                            locations@[q1],
                                            locations@[q2],
                                            cur_penalty,
                                        ));
                                    } else {
                                        assert(neighbor_bound(
                                            *pf,
                                            snap,
                                            locations@[q2],
                                            locations@[q1],
                                            cur_penalty,
                                        ));
                                        crate::schedule::lemma_swapped_symmetric(v0, l1, l2);
                                        let rp = choose|rp: u64|
                                            possible_penalty(*pf, snap.swapped(l2, l1), rp)
                                                && cur_penalty <= rp;
                                        assert(possible_penalty(*pf, v0.swapped(l1, l2), rp)
                                            && penalty <= rp);
                                    }
                                }
                            }
                            assert(at_most_neighbors(*pf, v0, penalty));
                        } else {
                            lemma_at_most_neighbors_mono(*pf, v0, penalty_at_entry, penalty);
                        }
                        if local_optimum(*pf, v0, penalty0) {
                            assert(cur_penalty == penalty0 && penalty == penalty0);
                            assert(self@ == v0);
                        }
                        if it == 0 {
                            // one iteration moves at most one pair
                            if self@ != v0 {
                                let li = locations@[best_i as int];
                                let lj = locations@[best_j as int];
                                assert(li.in_bounds(v0) && lj.in_bounds(v0) && self@ == v0.swapped(
                                    li,
                                    lj,
                                ));
                            }
                        }
                    }
                }
            }
            it = it + 1;
        }
        proof {
            if !noise && nswaps != Some(0usize) && budget == 0 {
                // a zero budget without an explicit zero override means the
                // default was zero: the grid has no locations at all
                assert(nswaps is None);
                assert(ntotal == 0);
                lemma_no_locations_vacuous(*pf, v0, penalty);
            }
        }
        (penalty, Ghost(penalty0))
    }
}

/// The scoring function accepts every grid reachable from `v2` whenever it
/// accepts every grid reachable from `v1` and the two states are reachable
/// from one another.
proof fn lemma_callable_transfer<A, F: Fn(&Schedule<A>) -> u64>(
    pf: F,
    v1: GridView<A>,
    v2: GridView<A>,
)
    requires
        callable_on(pf, v1),
        v2.same_shape(v1),
        v2.payloads() == v1.payloads(),
    ensures
        callable_on(pf, v2),
{
    assert forall|w: &Schedule<A>|
        (w@.wf() && w@.same_shape(v2) && w@.payloads() == v2.payloads()) implies call_requires(
        pf,
        (w,),
    ) by {
        assert(w@.same_shape(v1));
        assert(w@.payloads() == v1.payloads());
    }
}

impl<A: Copy> Schedule<A> {
    /// The restart controller: performs one run when no restarts are
    /// configured, otherwise `restarts + 1` runs, reshuffling the live grid
    /// before every run but the first, tracking the best snapshot seen, and
    /// finally replacing the live grid wholesale with that best snapshot.
    /// Under proportional allocation one total budget is divided evenly
    /// across the runs. The wall-clock cutoff is checked only before a run
    /// starts; a run in progress is never interrupted.
    ///
    /// Returns the penalty of the committed grid together with a ghost log:
    /// the penalty of the starting grid and the penalty at the completion of
    /// each run that was performed. The committed penalty is at or below the
    /// starting penalty and every completed run's penalty; without a cutoff
    /// every run is performed, and with noise off under uniform allocation
    /// the committed grid scores no worse than any one-swap neighbor of the
    /// starting grid.
    pub fn improve_with_config<F: Fn(&Schedule<A>) -> u64>(
        &mut self,
        pf: &F,
        rng: &mut fastrand::Rng,
        config: &Config,
    ) -> (out: (u64, Ghost<RunLog>))
        requires
            old(self)@.wf(),
            old(self)@.total_locs() <= usize::MAX,
            callable_on(*pf, old(self)@),
        ensures
            final(self)@.wf(),
            final(self)@.same_shape(old(self)@),
            final(self)@.payloads() == old(self)@.payloads(),
            possible_penalty(*pf, old(self)@, out.1@.initial),
            possible_penalty(*pf, final(self)@, out.0),
            out.0 <= out.1@.initial,
            forall|k: int| 0 <= k < out.1@.runs.len() ==> out.0 <= out.1@.runs[k],
            out.0 == out.1@.initial || exists|k: int|
                0 <= k < out.1@.runs.len() && out.0 == out.1@.runs[k],
            out.1@.runs.len() <= 1 + config.spec_restarts(),
            config.timeout_millis is None ==> out.1@.runs.len() == config.spec_total_runs(),
            (config.nswaps == Some(0usize) && config.spec_restarts() == 0) ==> final(self)@
                == old(self)@,
            (!config.noise && config.timeout_millis is None && !config.proportional
                && config.nswaps != Some(0usize)) ==> at_most_neighbors(*pf, old(self)@, out.0),
            (!config.noise && config.spec_restarts() == 0 && local_optimum(
                *pf,
                old(self)@,
                out.1@.initial,
            )) ==> (final(self)@ == old(self)@ && out.0 == out.1@.initial),
            (!config.noise && config.spec_restarts() == 0 && config.nswaps == Some(1usize))
                ==> (final(self)@ == old(self)@ || exists|l1: Loc, l2: Loc|
                l1.in_bounds(old(self)@) && l2.in_bounds(old(self)@) && final(self)@ == old(
                    self,
                )@.swapped(l1, l2)),
    {
        let ghost v0 = old(self)@;
        let num_restarts = match config.restarts {
            Some(r) => r,
            None => 0,
        };
        let per_run: Option<usize> = if config.proportional {
            let ntotal = self.total_locations();
            let total = match config.nswaps {
                Some(b) => b,
                None => default_budget(ntotal),
            };
            let nruns = match num_restarts.checked_add(1) {
                Some(n) => n,
                None => usize::MAX,
            };
            Some(total / nruns)
        } else {
            config.nswaps
        };
        let start = crate::clock::instant_now();
        if num_restarts == 0 {
            if !timeout_expired(config, &start) {
                let (p, gi) = self.improve_single_with(pf, rng, per_run, config.noise);
                let out = (p, Ghost(RunLog { initial: gi@, runs: seq![p] }));
                proof {
                    assert(out.1@.runs.len() == 1);
                    assert(out.1@.runs[0] == p);
                    assert(exists|k: int| 0 <= k < out.1@.runs.len() && out.0 == out.1@.runs[k]);
                }
                out
            } else {
                let p = pf(&*self);
                let out = (p, Ghost(RunLog { initial: p, runs: Seq::empty() }));
                proof {
                    let w = &*self;
                    assert(w@ == v0 && call_ensures(*pf, (w,), p));
                    assert(out.0 == out.1@.initial);
                }
                out
            }
        } else {
            let mut best_penalty = pf(&*self);
            proof {
                let w = &*self;
                assert(w@ == v0 && call_ensures(*pf, (w,), best_penalty));
            }
            let ghost p_init = best_penalty;
            let mut best = self.clone();
            let ghost mut runs: Seq<u64> = Seq::empty();
            let total_runs = match num_restarts.checked_add(1) {
                Some(n) => n,
                None => usize::MAX,
            };
            let mut r: usize = 0;
            while r < total_runs
                invariant
                    self@.wf(),
                    self@.same_shape(v0),
                    self@.payloads() == v0.payloads(),
                    best@.wf(),
                    best@.same_shape(v0),
                    best@.payloads() == v0.payloads(),
                    callable_on(*pf, v0),
                    v0.total_locs() <= usize::MAX,
                    possible_penalty(*pf, best@, best_penalty),
                    best_penalty <= p_init,
                    possible_penalty(*pf, v0, p_init),
                    forall|k: int| 0 <= k < runs.len() ==> best_penalty <= runs[k],
                    best_penalty == p_init || exists|k: int|
                        0 <= k < runs.len() && best_penalty == runs[k],
                    runs.len() <= r,
                    r <= total_runs,
                    total_runs <= 1 + num_restarts,
                    num_restarts as int == config.spec_restarts(),
                    total_runs as int == config.spec_total_runs(),
                    config.timeout_millis is None ==> runs.len() == r,
                    !config.proportional ==> per_run == config.nswaps,
                    r == 0 ==> self@ == v0,
                    (!config.noise && config.timeout_millis is None && !config.proportional
                        && config.nswaps != Some(0usize) && r >= 1) ==> at_most_neighbors(
                        *pf,
                        v0,
                        best_penalty,
                    ),
                decreases total_runs - r,
            {
                let expired = timeout_expired(config, &start);
                if !expired {
                    if r > 0 {
                        self.reshuffle(rng);
                    }
                    proof {
                        lemma_callable_transfer(*pf, v0, self@);
                        assert(self@.total_locs() == v0.total_locs());
                    }
                    let (run_penalty, _run_initial) = self.improve_single_with(
                        pf,
                        rng,
                        per_run,
                        config.noise,
                    );
                    let ghost prior_runs = runs;
                    let ghost prior_best = best_penalty;
                    if run_penalty < best_penalty {
                        best_penalty = run_penalty;
                        best = self.clone();
                    }
                    proof {
                        runs = runs.push(run_penalty);
                        assert(runs[runs.len() - 1] == run_penalty);
                        if best_penalty == prior_best && prior_best != p_init {
                            let kk = choose|kk: int|
                                0 <= kk < prior_runs.len() && prior_best == prior_runs[kk];
                            assert(runs[kk] == prior_runs[kk]);
                        }
                        if !config.noise && config.timeout_millis is None && !config.proportional
                            && config.nswaps != Some(0usize) {
                            if r == 0 {
                                lemma_at_most_neighbors_mono(*pf, v0, run_penalty, best_penalty);
                            } else {
                                lemma_at_most_neighbors_mono(*pf, v0, prior_best, best_penalty);
                            }
                        }
                    }
                } else {
                    proof {
                        assert(config.timeout_millis is Some);
                    }
                }
                r = r + 1;
            }
            *self = best;
            let out = (best_penalty, Ghost(RunLog { initial: p_init, runs }));
            proof {
                if best_penalty != p_init {
                    let kk = choose|kk: int| 0 <= kk < runs.len() && best_penalty == runs[kk];
                    assert(out.1@.runs == runs);
                    assert(0 <= kk < out.1@.runs.len() && out.0 == out.1@.runs[kk]);
                    assert(exists|k: int| 0 <= k < out.1@.runs.len() && out.0 == out.1@.runs[k]);
                }
            }
            out
        }
    }

    /// Runs the engine with explicit budget, noise and restart-count
    /// arguments and a caller-supplied scoring function: uniform budget
    /// allocation, no timeout.
    pub fn improve_with_penalty<F: Fn(&Schedule<A>) -> u64>(
        &mut self,
        pf: F,
        rng: &mut fastrand::Rng,
        nswaps: Option<usize>,
        noise: bool,
        restarts: Option<usize>,
    ) -> (out: (u64, Ghost<RunLog>))
        requires
            old(self)@.wf(),
            old(self)@.total_locs() <= usize::MAX,
            callable_on(pf, old(self)@),
        ensures
            final(self)@.wf(),
            final(self)@.same_shape(old(self)@),
            final(self)@.payloads() == old(self)@.payloads(),
            possible_penalty(pf, old(self)@, out.1@.initial),
            possible_penalty(pf, final(self)@, out.0),
            out.0 <= out.1@.initial,
            forall|k: int| 0 <= k < out.1@.runs.len() ==> out.0 <= out.1@.runs[k],
            out.0 == out.1@.initial || exists|k: int|
                0 <= k < out.1@.runs.len() && out.0 == out.1@.runs[k],
            out.1@.runs.len() <= 1 + (match restarts {
                Some(r) => r as int,
                None => 0,
            }),
            out.1@.runs.len() == runs_for(restarts),
            (nswaps == Some(0usize) && (restarts is None || restarts == Some(0usize)))
                ==> final(self)@ == old(self)@,
            (!noise && nswaps != Some(0usize)) ==> at_most_neighbors(pf, old(self)@, out.0),
            (!noise && (restarts is None || restarts == Some(0usize)) && local_optimum(
                pf,
                old(self)@,
                out.1@.initial,
            )) ==> (final(self)@ == old(self)@ && out.0 == out.1@.initial),
            (!noise && (restarts is None || restarts == Some(0usize)) && nswaps == Some(1usize))
                ==> (final(self)@ == old(self)@ || exists|l1: Loc, l2: Loc|
                l1.in_bounds(old(self)@) && l2.in_bounds(old(self)@) && final(self)@ == old(
                    self,
                )@.swapped(l1, l2)),
    {
        let config = Config {
            nswaps,
            noise,
            restarts,
            proportional: false,
            timeout_millis: None,
        };
        self.improve_with_config(&pf, rng, &config)
    }

    /// Runs the engine against the type's own `Penalty` implementation.
    /// Monotonic improvement: the committed grid's penalty never exceeds the
    /// starting grid's, whatever the random source does; a zero budget
    /// without restarts leaves the grid untouched. With noise off and a
    /// budget, the committed grid also scores no worse than any one-swap
    /// neighbor of the start — so whenever some swap strictly improves, the
    /// engine strictly improves — and a grid that no single swap improves is
    /// left exactly as it was.
    pub fn improve(
        &mut self,
        rng: &mut fastrand::Rng,
        nswaps: Option<usize>,
        noise: bool,
        restarts: Option<usize>,
    ) -> (r: u64) where Self: Penalty, Self: View<V = GridView<A>>
        requires
            old(self)@.wf(),
            old(self)@.total_locs() <= usize::MAX,
            forall|v: GridView<A>|
                (v.wf() && v.same_shape(old(self)@) && v.payloads() == old(self)@.payloads())
                    ==> #[trigger] Self::penalty_ready(v),
        ensures
            final(self)@.wf(),
            final(self)@.same_shape(old(self)@),
            final(self)@.payloads() == old(self)@.payloads(),
            r == Self::spec_penalty(final(self)@),
            Self::spec_penalty(final(self)@) <= Self::spec_penalty(old(self)@),
            (nswaps == Some(0usize) && (restarts is None || restarts == Some(0usize)))
                ==> final(self)@ == old(self)@,
            (!noise && nswaps != Some(0usize)) ==> forall|l1: Loc, l2: Loc|
                (l1.in_bounds(old(self)@) && l2.in_bounds(old(self)@)) ==> Self::spec_penalty(
                    final(self)@,
                ) <= Self::spec_penalty(#[trigger] old(self)@.swapped(l1, l2)),
            (!noise && (restarts is None || restarts == Some(0usize)) && (forall|l1: Loc, l2: Loc|
                (l1.in_bounds(old(self)@) && l2.in_bounds(old(self)@)) ==> Self::spec_penalty(
                    #[trigger] old(self)@.swapped(l1, l2),
                ) >= Self::spec_penalty(old(self)@))) ==> final(self)@ == old(self)@,
            (!noise && (restarts is None || restarts == Some(0usize)) && nswaps == Some(1usize))
                ==> (final(self)@ == old(self)@ || exists|l1: Loc, l2: Loc|
                l1.in_bounds(old(self)@) && l2.in_bounds(old(self)@) && final(self)@ == old(
                    self,
                )@.swapped(l1, l2)),
    {
        let cl = |s: &Schedule<A>| -> (pr: u64)
            requires
                <Schedule<A> as Penalty>::penalty_ready(s@),
            ensures
                pr == <Schedule<A> as Penalty>::spec_penalty(s@),
            { s.penalty() };
        proof {
            assert forall|w: &Schedule<A>|
                (w@.wf() && w@.same_shape(old(self)@) && w@.payloads() == old(
                    self,
                )@.payloads()) implies call_requires(cl, (w,)) by {}
        }
        let ghost v0 = old(self)@;
        proof {
            // A grid with no strictly improving swap is a local optimum for
            // the closure as well: every reported neighbor score is its
            // exact one.
            if !noise && (restarts is None || restarts == Some(0usize)) && (forall|l1: Loc, l2: Loc|
                (l1.in_bounds(v0) && l2.in_bounds(v0)) ==> Self::spec_penalty(
                    #[trigger] v0.swapped(l1, l2),
                ) >= Self::spec_penalty(v0)) {
                assert forall|l1: Loc, l2: Loc, rp: u64|
                    (l1.in_bounds(v0) && l2.in_bounds(v0) && #[trigger] possible_penalty(
                        cl,
                        v0.swapped(l1, l2),
                        rp,
                    )) implies rp >= Self::spec_penalty(v0) by {
                    let w = choose|w: &Schedule<A>|
                        w@ == v0.swapped(l1, l2) && call_ensures(cl, (w,), rp);
                    assert(rp == Self::spec_penalty(v0.swapped(l1, l2)));
                }
            }
        }
        let (p, log) = self.improve_with_penalty(cl, rng, nswaps, noise, restarts);
        proof {
            let wf = choose|w: &Schedule<A>| w@ == self@ && call_ensures(cl, (w,), p);
            assert(p == Self::spec_penalty(self@));
            let wi = choose|w: &Schedule<A>|
                w@ == old(self)@ && call_ensures(cl, (w,), log@.initial);
            assert(log@.initial == Self::spec_penalty(old(self)@));
            if !noise && nswaps != Some(0usize) {
                assert forall|l1: Loc, l2: Loc|
                    (l1.in_bounds(v0) && l2.in_bounds(v0)) implies Self::spec_penalty(self@)
                    <= Self::spec_penalty(#[trigger] v0.swapped(l1, l2)) by {
                    assert(neighbor_bound(cl, v0, l1, l2, p));
                    let rp = choose|rp: u64|
                        possible_penalty(cl, v0.swapped(l1, l2), rp) && p <= rp;
                    let w = choose|w: &Schedule<A>|
                        w@ == v0.swapped(l1, l2) && call_ensures(cl, (w,), rp);
                    assert(rp == Self::spec_penalty(v0.swapped(l1, l2)));
                }
            }
            if !noise && (restarts is None || restarts == Some(0usize)) && (forall|l1: Loc, l2: Loc|
                (l1.in_bounds(v0) && l2.in_bounds(v0)) ==> Self::spec_penalty(
                    #[trigger] v0.swapped(l1, l2),
                ) >= Self::spec_penalty(v0)) {
                assert(local_optimum(cl, v0, log@.initial));
                assert(self@ == v0);
            }
        }
        p
    }
}

/// True when the configured wall-clock cutoff has elapsed since `start`.
/// Without a cutoff it never fires; with one, the answer is the clock's.
fn timeout_expired(config: &Config, start: &std::time::Instant) -> (r: bool)
    ensures
        config.timeout_millis is None ==> !r,
{
    match config.timeout_millis {
        Some(ms) => crate::clock::duration_as_millis(&crate::clock::elapsed_since(start))
            >= ms as u128,
        None => false,
    }
}

/// The default swap budget, `2 * ntotal^3`, saturating at the machine limit:
/// deliberately generous, budget-driven rather than convergence-driven. It
/// vanishes only on a grid with no locations.
fn default_budget(ntotal: usize) -> (r: usize)
    ensures
        ntotal >= 1 ==> r >= 1,
{
    match ntotal.checked_mul(ntotal) {
        Some(sq) => match sq.checked_mul(ntotal) {
            Some(cu) => match cu.checked_mul(2) {
                Some(b) => {
                    proof {
                        assert(ntotal >= 1 ==> b >= 1) by (nonlinear_arith)
                            requires
                                sq == ntotal * ntotal,
                                cu == sq * ntotal,
                                b == cu * 2,
                        ;
                    }
                    b
                },
                None => usize::MAX,
            },
            None => usize::MAX,
        },
        None => usize::MAX,
    }
}

} // verus!
