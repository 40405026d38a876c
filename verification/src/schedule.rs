//! The schedule grid: a `places x times` matrix of optional payloads plus a
//! fixed-size overflow pool, with a uniform location-addressing scheme over
//! both stores and the atomic swap / reshuffle primitives.

use vstd::prelude::*;

verus! {

use vstd::multiset::Multiset;

/// Reports an out-of-range coordinate read: either the place index or the
/// time index exceeded the grid's dimension.
#[derive(Debug, Clone, Copy, PartialEq, Eq, Structural)]
pub enum BoundsError {
    Place(usize),
    Time(usize),
}

/// The mathematical model of a schedule grid: the two stores as sequences of
/// optional payloads, together with the grid's fixed dimensions.
#[verifier::ext_equal]
pub struct GridView<A> {
    pub nplaces: nat,
    pub ntimes: nat,
    pub slots: Seq<Option<A>>,
    pub unscheduled: Seq<Option<A>>,
}

/// The multiset of payloads held by one optional location.
pub open spec fn opt_payloads<A>(x: Option<A>) -> Multiset<A> {
    match x {
        Some(a) => Multiset::empty().insert(a),
        None => Multiset::empty(),
    }
}

/// The multiset of payloads held by a sequence of optional locations.
pub open spec fn payloads_of<A>(s: Seq<Option<A>>) -> Multiset<A>
    decreases s.len(),
{
    if s.len() == 0 {
        Multiset::empty()
    } else {
        payloads_of(s.drop_last()).add(opt_payloads(s.last()))
    }
}

impl<A> GridView<A> {
    /// The number of grid cells.
    pub open spec fn capacity(self) -> int {
        (self.nplaces * self.ntimes) as int
    }

    /// Shape invariant: the cell store has exactly `nplaces * ntimes` entries.
    pub open spec fn wf(self) -> bool {
        self.slots.len() == self.capacity()
    }

    /// All locations in one sequence: grid cells in row-major order, then the
    /// overflow pool.
    pub open spec fn locs(self) -> Seq<Option<A>> {
        self.slots + self.unscheduled
    }

    /// The total number of locations.
    pub open spec fn total_locs(self) -> int {
        (self.slots.len() + self.unscheduled.len()) as int
    }

    /// The content of the cell at `(place, time)`.
    pub open spec fn cell(self, place: int, time: int) -> Option<A> {
        self.slots[place * self.ntimes + time]
    }

    /// The multiset of payloads across both stores.
    pub open spec fn payloads(self) -> Multiset<A> {
        payloads_of(self.locs())
    }

    /// The number of occupied locations.
    pub open spec fn occupied_count(self) -> nat {
        self.payloads().len()
    }

    /// Both grids have the same dimensions and overflow-pool size.
    pub open spec fn same_shape(self, other: GridView<A>) -> bool {
        &&& self.nplaces == other.nplaces
        &&& self.ntimes == other.ntimes
        &&& self.slots.len() == other.slots.len()
        &&& self.unscheduled.len() == other.unscheduled.len()
    }

    /// What one location holds.
    pub open spec fn read(self, l: Loc) -> Option<A> {
        match l {
            Loc::Cell(p, t) => self.slots[p * self.ntimes + t],
            Loc::Over(i) => self.unscheduled[i as int],
        }
    }

    /// The grid with one location overwritten.
    pub open spec fn write(self, l: Loc, x: Option<A>) -> GridView<A> {
        match l {
            Loc::Cell(p, t) => GridView { slots: self.slots.update(p * self.ntimes + t, x), ..self },
            Loc::Over(i) => GridView { unscheduled: self.unscheduled.update(i as int, x), ..self },
        }
    }

    /// The grid with the contents of two locations exchanged.
    pub open spec fn swapped(self, l1: Loc, l2: Loc) -> GridView<A> {
        self.write(l1, self.read(l2)).write(l2, self.read(l1))
    }
}

/// A uniform address over the two stores: a grid cell named by
/// `(place, time)`, or a slot of the overflow pool.
#[derive(Debug, Clone, Copy, PartialEq, Eq, Structural)]
pub enum Loc {
    Cell(usize, usize),
    Over(usize),
}

impl Loc {
    /// The address denotes a location that the grid actually has.
    pub open spec fn in_bounds<A>(self, v: GridView<A>) -> bool {
        match self {
            Loc::Cell(p, t) => p < v.nplaces && t < v.ntimes,
            Loc::Over(i) => i < v.unscheduled.len(),
        }
    }
}

/// A row-major cell index is within the cell store.
pub proof fn lemma_cell_index_bound(p: int, t: int, nplaces: int, ntimes: int)
    requires
        0 <= p < nplaces,
        0 <= t < ntimes,
    ensures
        0 <= p * ntimes + t < nplaces * ntimes,
{
    assert(0 <= p * ntimes + t < nplaces * ntimes) by (nonlinear_arith)
        requires
            0 <= p < nplaces,
            0 <= t < ntimes,
    ;
}

/// Owns a `places x times` matrix of optional payloads (stored row-major:
/// all times for place 0, then place 1, and so on) plus a fixed-size
/// overflow pool of optional payloads. After construction the shape never
/// changes; only `swap_locations` and `reshuffle` move payloads.
#[derive(Debug)]
pub struct Schedule<A> {
    nplaces: usize,
    ntimes: usize,
    slots: Vec<Option<A>>,
    unscheduled: Vec<Option<A>>,
}

impl<A> View for Schedule<A> {
    type V = GridView<A>;

    closed spec fn view(&self) -> GridView<A> {
        GridView {
            nplaces: self.nplaces as nat,
            ntimes: self.ntimes as nat,
            slots: self.slots@,
            unscheduled: self.unscheduled@,
        }
    }
}

impl<A: Copy> Schedule<A> {
    /// Builds a grid from its dimensions and the activity sequence: grid
    /// cells are filled in row-major order with the first
    /// `nplaces * ntimes` activities; every remaining activity occupies one
    /// overflow slot, in input order. Zero-sized dimensions are valid and
    /// simply send every activity to the overflow pool.
    pub fn new(nplaces: usize, ntimes: usize, activities: Vec<A>) -> (r: Schedule<A>)
        requires
            nplaces * ntimes <= usize::MAX,
        ensures
            r@.wf(),
            r@.nplaces == nplaces,
            r@.ntimes == ntimes,
            r@.unscheduled.len() == if activities@.len() > nplaces * ntimes {
                activities@.len() - nplaces * ntimes
            } else {
                0
            },
            forall|k: int|
                0 <= k < r@.slots.len() ==> r@.slots[k] == (if k < activities@.len() {
                    Some(activities@[k])
                } else {
                    None::<A>
                }),
            forall|k: int|
                0 <= k < r@.unscheduled.len() ==> r@.unscheduled[k] == Some(
                    activities@[r@.slots.len() + k],
                ),
            r@.payloads() == activities@.to_multiset(),
            r@.occupied_count() == activities@.len(),
    {
        broadcast use vstd::seq_lib::group_to_multiset_ensures;
        broadcast use vstd::multiset::group_multiset_axioms;

        let capacity = nplaces * ntimes;
        let n = activities.len();
        let mut slots: Vec<Option<A>> = Vec::new();
        let mut i: usize = 0;
        while i < capacity
            invariant
                i <= capacity,
                slots@.len() == i,
                forall|k: int|
                    0 <= k < i ==> slots@[k] == (if k < activities@.len() {
                        Some(activities@[k])
                    } else {
                        None::<A>
                    }),
                payloads_of(slots@) == activities@.take(if i <= activities@.len() {
                    i as int
                } else {
                    activities@.len() as int
                }).to_multiset(),
                n == activities@.len(),
            decreases capacity - i,
        {
            let ghost prev = slots@;
            if i < n {
                slots.push(Some(activities[i]));
                proof {
                    broadcast use vstd::seq_lib::group_to_multiset_ensures;
                    broadcast use vstd::multiset::group_multiset_axioms;

                    assert(slots@.drop_last() == prev);
                    assert(activities@.take(i + 1) =~= activities@.take(i as int).push(
                        activities@[i as int],
                    ));
                    assert(activities@.take(i as int).push(activities@[i as int]).to_multiset()
                        =~= activities@.take(i as int).to_multiset().insert(activities@[i as int]));
                    assert(payloads_of(slots@) == payloads_of(prev).add(
                        opt_payloads(Some(activities@[i as int])),
                    ));
                    assert(payloads_of(slots@) =~= activities@.take(i + 1).to_multiset());
                }
            } else {
                slots.push(None);
                proof {
                    assert(slots@.drop_last() == prev);
                    assert(payloads_of(slots@) =~= payloads_of(prev));
                }
            }
            i = i + 1;
        }
        let mut unscheduled: Vec<Option<A>> = Vec::new();
        let mut j: usize = capacity;
        while j < n
            invariant
                capacity <= j <= n || (j == capacity && n <= capacity),
                n == activities@.len(),
                unscheduled@.len() == if j >= capacity {
                    j - capacity
                } else {
                    0
                },
                forall|k: int|
                    0 <= k < unscheduled@.len() ==> unscheduled@[k] == Some(
                        activities@[capacity + k],
                    ),
                payloads_of(unscheduled@) == (if capacity <= j <= n {
                    activities@.subrange(capacity as int, j as int).to_multiset()
                } else {
                    Multiset::<A>::empty()
                }),
            decreases n - j,
        {
            let ghost prev = unscheduled@;
            unscheduled.push(Some(activities[j]));
            proof {
                broadcast use vstd::seq_lib::group_to_multiset_ensures;
                broadcast use vstd::multiset::group_multiset_axioms;

                assert(unscheduled@.drop_last() == prev);
                assert(activities@.subrange(capacity as int, j + 1)
                    =~= activities@.subrange(capacity as int, j as int).push(activities@[j as int]));
                assert(activities@.subrange(capacity as int, j as int).push(
                    activities@[j as int],
                ).to_multiset() =~= activities@.subrange(capacity as int, j as int).to_multiset()
                    .insert(activities@[j as int]));
                assert(payloads_of(unscheduled@) =~= activities@.subrange(
                    capacity as int,
                    j + 1,
                ).to_multiset());
            }
            j = j + 1;
        }
        let r = Schedule { nplaces, ntimes, slots, unscheduled };
        proof {
            lemma_payloads_of_concat(r@.slots, r@.unscheduled);
            if n > capacity {
                assert(activities@.take(capacity as int) + activities@.subrange(
                    capacity as int,
                    n as int,
                ) =~= activities@);
                vstd::seq_lib::lemma_multiset_commutative(
                    activities@.take(capacity as int),
                    activities@.subrange(capacity as int, n as int),
                );
                assert(r@.payloads() =~= activities@.to_multiset());
            } else {
                assert(activities@.take(n as int) == activities@);
                assert(payloads_of(r@.unscheduled) =~= Multiset::<A>::empty());
                assert(r@.payloads() =~= activities@.to_multiset());
            }
            assert(activities@.len() == activities@.to_multiset().len());
        }
        r
    }

    /// Bounds-checked read of the cell at `(place, time)`: reports which
    /// index was out of range (place checked first), and otherwise the
    /// cell's content.
    pub fn get_activity_at(&self, place: usize, time: usize) -> (r: Result<Option<A>, BoundsError>)
        requires
            self@.wf(),
        ensures
            r == (if place >= self@.nplaces {
                Err::<Option<A>, BoundsError>(BoundsError::Place(place))
            } else if time >= self@.ntimes {
                Err::<Option<A>, BoundsError>(BoundsError::Time(time))
            } else {
                Ok::<Option<A>, BoundsError>(self@.cell(place as int, time as int))
            }),
    {
        if place >= self.nplaces {
            return Err(BoundsError::Place(place));
        }
        if time >= self.ntimes {
            return Err(BoundsError::Time(time));
        }
        proof {
            lemma_cell_index_bound(place as int, time as int, self.nplaces as int, self.ntimes as int);
            assert(self@.slots.len() == self.slots.len());
        }
        let idx = place * self.ntimes + time;
        Ok(self.slots[idx])
    }

    /// The grid's dimensions, `(places, times)`.
    pub fn dimensions(&self) -> (r: (usize, usize))
        ensures
            r.0 == self@.nplaces,
            r.1 == self@.ntimes,
    {
        (self.nplaces, self.ntimes)
    }

    /// The payloads of all occupied overflow slots, in pool order.
    pub fn get_unscheduled_activities(&self) -> (r: Vec<A>)
        ensures
            r@ == occupied_seq(self@.unscheduled),
    {
        let mut r: Vec<A> = Vec::new();
        let mut k: usize = 0;
        while k < self.unscheduled.len()
            invariant
                k <= self.unscheduled@.len(),
                r@ == occupied_seq(self.unscheduled@.take(k as int)),
            decreases self.unscheduled@.len() - k,
        {
            let ghost prefix = self.unscheduled@.take(k as int);
            proof {
                assert(self.unscheduled@.take(k + 1).drop_last() == prefix);
                assert(self.unscheduled@.take(k + 1).last() == self.unscheduled@[k as int]);
            }
            if let Some(a) = self.unscheduled[k] {
                r.push(a);
            }
            k = k + 1;
        }
        proof {
            assert(self.unscheduled@.take(self.unscheduled@.len() as int) == self.unscheduled@);
        }
        r
    }

    /// The number of empty grid cells (overflow slots do not count).
    pub fn empty_slots_count(&self) -> (r: usize)
        ensures
            r == count_empty(self@.slots),
    {
        let mut r: usize = 0;
        let mut k: usize = 0;
        while k < self.slots.len()
            invariant
                k <= self.slots@.len(),
                r == count_empty(self.slots@.take(k as int)),
                r <= k,
            decreases self.slots@.len() - k,
        {
            let ghost prefix = self.slots@.take(k as int);
            proof {
                assert(self.slots@.take(k + 1).drop_last() == prefix);
                assert(self.slots@.take(k + 1).last() == self.slots@[k as int]);
            }
            if self.slots[k].is_none() {
                r = r + 1;
            }
            k = k + 1;
        }
        proof {
            assert(self.slots@.take(self.slots@.len() as int) == self.slots@);
        }
        r
    }

    /// What one in-bounds location currently holds.
    fn read_loc(&self, l: Loc) -> (r: Option<A>)
        requires
            self@.wf(),
            l.in_bounds(self@),
        ensures
            r == self@.read(l),
    {
        match l {
            Loc::Cell(p, t) => {
                proof {
                    lemma_cell_index_bound(
                        p as int,
                        t as int,
                        self.nplaces as int,
                        self.ntimes as int,
                    );
                    assert(self@.slots.len() == self.slots.len());
                }
                let idx = p * self.ntimes + t;
                self.slots[idx]
            },
            Loc::Over(i) => self.unscheduled[i],
        }
    }

    /// Overwrites one in-bounds location.
    fn write_loc(&mut self, l: Loc, x: Option<A>)
        requires
            old(self)@.wf(),
            l.in_bounds(old(self)@),
        ensures
            final(self)@ == old(self)@.write(l, x),
    {
        match l {
            Loc::Cell(p, t) => {
                proof {
                    lemma_cell_index_bound(
                        p as int,
                        t as int,
                        self.nplaces as int,
                        self.ntimes as int,
                    );
                    assert(self@.slots.len() == self.slots.len());
                }
                let idx = p * self.ntimes + t;
                self.slots[idx] = x;
            },
            Loc::Over(i) => {
                self.unscheduled[i] = x;
            },
        }
        proof {
            assert(self@ =~= old(self)@.write(l, x));
        }
    }

    /// Exchanges the contents of two locations — the sole primitive by which
    /// payloads change position. Works for any combination of grid cells and
    /// overflow slots, occupied or empty, and never creates or destroys a
    /// payload.
    pub fn swap_locations(&mut self, l1: Loc, l2: Loc)
        requires
            old(self)@.wf(),
            l1.in_bounds(old(self)@),
            l2.in_bounds(old(self)@),
        ensures
            final(self)@ == old(self)@.swapped(l1, l2),
            final(self)@.wf(),
            final(self)@.same_shape(old(self)@),
            final(self)@.payloads() == old(self)@.payloads(),
            final(self)@.occupied_count() == old(self)@.occupied_count(),
    {
        let a1 = self.read_loc(l1);
        let a2 = self.read_loc(l2);
        self.write_loc(l1, a2);
        proof {
            lemma_write_shape(old(self)@, l1, a2);
            assert(l2.in_bounds(self@));
        }
        self.write_loc(l2, a1);
        proof {
            assert(self@ == old(self)@.swapped(l1, l2));
            lemma_swapped_preserves_payloads(old(self)@, l1, l2);
        }
    }

    /// Gathers every payload into a transient list, permutes it with a
    /// Fisher-Yates shuffle driven by the injected random source, then
    /// refills grid cells (row-major) first and overflow slots second,
    /// leaving any surplus locations empty. Destroys the current arrangement
    /// entirely, but never the payloads: the multiset is preserved, and
    /// afterwards exactly the first `occupied_count` locations are occupied.
    pub fn reshuffle(&mut self, rng: &mut fastrand::Rng)
        requires
            old(self)@.wf(),
        ensures
            final(self)@.wf(),
            final(self)@.same_shape(old(self)@),
            final(self)@.payloads() == old(self)@.payloads(),
            final(self)@.occupied_count() == old(self)@.occupied_count(),
            forall|q: int|
                0 <= q < final(self)@.total_locs() ==> ((final(self)@.locs()[q]) is Some <==> q
                    < final(self)@.occupied_count()),
    {
        let ghost orig = self@;
        // Gather every payload from both stores, emptying them.
        let mut all: Vec<A> = Vec::new();
        proof {
            broadcast use vstd::seq_lib::group_to_multiset_ensures;
            broadcast use vstd::multiset::group_multiset_axioms;

            assert forall|e: A| all@.to_multiset().count(e) == Multiset::<A>::empty().count(e) by {
                broadcast use vstd::seq_lib::group_to_multiset_ensures;
                broadcast use vstd::multiset::group_multiset_axioms;

                assert(!all@.contains(e));
            }
            assert(all@.to_multiset() =~= Multiset::<A>::empty());
            assert(orig.slots.take(0) =~= Seq::<Option<A>>::empty());
            assert(payloads_of(orig.slots.take(0)) == Multiset::<A>::empty());
        }
        let mut k: usize = 0;
        while k < self.slots.len()
            invariant
                k <= self.slots@.len(),
                self@.nplaces == orig.nplaces,
                self@.ntimes == orig.ntimes,
                self@.slots.len() == orig.slots.len(),
                self@.unscheduled == orig.unscheduled,
                forall|m: int| 0 <= m < k ==> self@.slots[m] is None,
                forall|m: int| k <= m < orig.slots.len() ==> self@.slots[m] == orig.slots[m],
                all@.len() <= k,
                all@.to_multiset() == payloads_of(orig.slots.take(k as int)),
            decreases self.slots@.len() - k,
        {
            let ghost prev_all = all@;
            let x = self.slots[k];
            self.slots[k] = None;
            if let Some(a) = x {
                all.push(a);
            }
            proof {
                broadcast use vstd::seq_lib::group_to_multiset_ensures;
                broadcast use vstd::multiset::group_multiset_axioms;

                assert(orig.slots.take(k + 1).drop_last() == orig.slots.take(k as int));
                assert(orig.slots.take(k + 1).last() == orig.slots[k as int]);
                if x is Some {
                    assert(all@ == prev_all.push(x.unwrap()));
                    assert(all@.to_multiset() == prev_all.to_multiset().insert(x.unwrap()));
                    assert(all@.to_multiset() =~= payloads_of(orig.slots.take(k + 1)));
                } else {
                    assert(all@.to_multiset() =~= payloads_of(orig.slots.take(k + 1)));
                }
            }
            k = k + 1;
        }
        proof {
            assert(orig.slots.take(orig.slots.len() as int) == orig.slots);
        }
        let mut m: usize = 0;
        while m < self.unscheduled.len()
            invariant
                m <= self.unscheduled@.len(),
                self@.nplaces == orig.nplaces,
                self@.ntimes == orig.ntimes,
                self@.slots.len() == orig.slots.len(),
                self@.unscheduled.len() == orig.unscheduled.len(),
                forall|q: int| 0 <= q < orig.slots.len() ==> self@.slots[q] is None,
                forall|q: int| 0 <= q < m ==> self@.unscheduled[q] is None,
                forall|q: int|
                    m <= q < orig.unscheduled.len() ==> self@.unscheduled[q] == orig.unscheduled[q],
                all@.len() <= orig.slots.len() + m,
                all@.to_multiset() == payloads_of(orig.slots).add(
                    payloads_of(orig.unscheduled.take(m as int)),
                ),
            decreases self.unscheduled@.len() - m,
        {
            let ghost prev_all = all@;
            let x = self.unscheduled[m];
            self.unscheduled[m] = None;
            if let Some(a) = x {
                all.push(a);
            }
            proof {
                broadcast use vstd::seq_lib::group_to_multiset_ensures;
                broadcast use vstd::multiset::group_multiset_axioms;

                assert(orig.unscheduled.take(m + 1).drop_last() == orig.unscheduled.take(m as int));
                assert(orig.unscheduled.take(m + 1).last() == orig.unscheduled[m as int]);
                if x is Some {
                    assert(all@ == prev_all.push(x.unwrap()));
                    assert(all@.to_multiset() == prev_all.to_multiset().insert(x.unwrap()));
                }
                assert(all@.to_multiset() =~= payloads_of(orig.slots).add(
                    payloads_of(orig.unscheduled.take(m + 1)),
                ));
            }
            m = m + 1;
        }
        proof {
            assert(orig.unscheduled.take(orig.unscheduled.len() as int) == orig.unscheduled);
            lemma_payloads_of_concat(orig.slots, orig.unscheduled);
            assert(all@.to_multiset() == orig.payloads());
        }
        let ghost gathered = all@.to_multiset();
        let ghost count = all@.len();
        // Fisher-Yates: a uniform permutation of the gathered payloads.
        let mut i: usize = all.len();
        while i > 1
            invariant
                i <= all@.len(),
                all@.len() == count,
                all@.to_multiset() == gathered,
                self@.nplaces == orig.nplaces,
                self@.ntimes == orig.ntimes,
                self@.slots.len() == orig.slots.len(),
                self@.unscheduled.len() == orig.unscheduled.len(),
                forall|q: int| 0 <= q < orig.slots.len() ==> self@.slots[q] is None,
                forall|q: int| 0 <= q < orig.unscheduled.len() ==> self@.unscheduled[q] is None,
            decreases i,
        {
            i = i - 1;
            let j = crate::rng::rng_below(rng, i + 1);
            let ghost before = all@;
            let a = all[i];
            let b = all[j];
            all[i] = b;
            all[j] = a;
            proof {
                lemma_seq_swap_to_multiset(before, i as int, j as int);
                assert(all@ == before.update(i as int, before[j as int]).update(
                    j as int,
                    before[i as int],
                ));
            }
        }
        // Refill: grid cells first, then overflow slots; the rest stay empty.
        let nitems = all.len();
        let mut k: usize = 0;
        while k < self.slots.len()
            invariant
                k <= self.slots@.len(),
                all@.len() == count,
                all@.to_multiset() == gathered,
                self@.nplaces == orig.nplaces,
                self@.ntimes == orig.ntimes,
                self@.slots.len() == orig.slots.len(),
                self@.unscheduled.len() == orig.unscheduled.len(),
                nitems == count,
                forall|q: int|
                    0 <= q < k ==> self@.slots[q] == (if q < all@.len() {
                        Some(all@[q])
                    } else {
                        None::<A>
                    }),
                forall|q: int| k <= q < orig.slots.len() ==> self@.slots[q] is None,
                forall|q: int| 0 <= q < orig.unscheduled.len() ==> self@.unscheduled[q] is None,
            decreases self.slots@.len() - k,
        {
            if k < nitems {
                let a = all[k];
                self.slots[k] = Some(a);
            }
            k = k + 1;
        }
        let cap = self.slots.len();
        let remaining = if nitems > cap {
            nitems - cap
        } else {
            0
        };
        let mut m: usize = 0;
        while m < self.unscheduled.len()
            invariant
                m <= self.unscheduled@.len(),
                all@.len() == count,
                all@.to_multiset() == gathered,
                self@.nplaces == orig.nplaces,
                self@.ntimes == orig.ntimes,
                self@.slots.len() == orig.slots.len(),
                self@.unscheduled.len() == orig.unscheduled.len(),
                nitems == count,
                cap == orig.slots.len(),
                remaining == (if count > orig.slots.len() {
                    count - orig.slots.len()
                } else {
                    0
                }),
                forall|q: int|
                    0 <= q < orig.slots.len() ==> self@.slots[q] == (if q < all@.len() {
                        Some(all@[q])
                    } else {
                        None::<A>
                    }),
                forall|q: int|
                    0 <= q < m ==> self@.unscheduled[q] == (if orig.slots.len() + q < all@.len() {
                        Some(all@[orig.slots.len() + q])
                    } else {
                        None::<A>
                    }),
                forall|q: int| m <= q < orig.unscheduled.len() ==> self@.unscheduled[q] is None,
            decreases self.unscheduled@.len() - m,
        {
            if m < remaining {
                let a = all[cap + m];
                self.unscheduled[m] = Some(a);
            }
            m = m + 1;
        }
        proof {
            broadcast use vstd::seq_lib::group_to_multiset_ensures;

            let fin = self@;
            assert(count <= fin.total_locs());
            assert(forall|q: int|
                0 <= q < fin.total_locs() ==> fin.locs()[q] == (if q < all@.len() {
                    Some(all@[q])
                } else {
                    None::<A>
                }));
            lemma_payloads_of_packed(fin.locs(), all@);
            assert(fin.payloads() == gathered);
            assert(fin.occupied_count() == all@.len());
        }
    }

    /// The size of the overflow pool (occupied or not).
    pub fn overflow_len(&self) -> (r: usize)
        ensures
            r == self@.unscheduled.len(),
    {
        self.unscheduled.len()
    }

    /// Direct read access to the cell store (row-major).
    pub fn slots(&self) -> (r: &Vec<Option<A>>)
        ensures
            r@ == self@.slots,
    {
        &self.slots
    }
}

impl<A: Copy> Clone for Schedule<A> {
    /// An exact snapshot: payloads are copyable values, so the clone's model
    /// equals the original's.
    fn clone(&self) -> (r: Self)
        ensures
            r@ == self@,
    {
        let mut slots: Vec<Option<A>> = Vec::new();
        let mut k: usize = 0;
        while k < self.slots.len()
            invariant
                k <= self.slots@.len(),
                slots@ == self.slots@.take(k as int),
            decreases self.slots@.len() - k,
        {
            slots.push(self.slots[k]);
            proof {
                assert(slots@ =~= self.slots@.take(k + 1));
            }
            k = k + 1;
        }
        let mut unscheduled: Vec<Option<A>> = Vec::new();
        let mut m: usize = 0;
        while m < self.unscheduled.len()
            invariant
                m <= self.unscheduled@.len(),
                unscheduled@ == self.unscheduled@.take(m as int),
            decreases self.unscheduled@.len() - m,
        {
            unscheduled.push(self.unscheduled[m]);
            proof {
                assert(unscheduled@ =~= self.unscheduled@.take(m + 1));
            }
            m = m + 1;
        }
        let r = Schedule { nplaces: self.nplaces, ntimes: self.ntimes, slots, unscheduled };
        proof {
            assert(self.slots@.take(self.slots@.len() as int) == self.slots@);
            assert(self.unscheduled@.take(self.unscheduled@.len() as int) == self.unscheduled@);
            assert(r@ =~= self@);
        }
        r
    }
}

/// The payloads of the occupied entries of a sequence of optional
/// locations, in order.
pub open spec fn occupied_seq<A>(s: Seq<Option<A>>) -> Seq<A>
    decreases s.len(),
{
    if s.len() == 0 {
        Seq::empty()
    } else {
        match s.last() {
            Some(a) => occupied_seq(s.drop_last()).push(a),
            None => occupied_seq(s.drop_last()),
        }
    }
}

/// How many entries of a sequence of optional locations are empty.
pub open spec fn count_empty<A>(s: Seq<Option<A>>) -> int
    decreases s.len(),
{
    if s.len() == 0 {
        0
    } else {
        count_empty(s.drop_last()) + if s.last() is None {
            1int
        } else {
            0int
        }
    }
}

/// Updating one location exchanges its payload contribution for that of the
/// new content (stated additively, so no occupancy case split is needed).
pub proof fn lemma_payloads_of_update<A>(s: Seq<Option<A>>, i: int, x: Option<A>)
    requires
        0 <= i < s.len(),
    ensures
        payloads_of(s.update(i, x)).add(opt_payloads(s[i])) == payloads_of(s).add(opt_payloads(x)),
    decreases s.len(),
{
    broadcast use vstd::multiset::group_multiset_axioms;

    if i == s.len() - 1 {
        assert(s.update(i, x).drop_last() =~= s.drop_last());
        assert(payloads_of(s.update(i, x)).add(opt_payloads(s[i])) =~= payloads_of(s).add(
            opt_payloads(x),
        ));
    } else {
        let dl = s.drop_last();
        let dlu = dl.update(i, x);
        let last = opt_payloads(s.last());
        assert(s.update(i, x).drop_last() =~= dlu);
        assert(s.update(i, x).last() == s.last());
        lemma_payloads_of_update(dl, i, x);
        assert(payloads_of(s.update(i, x)).add(opt_payloads(s[i])) =~= payloads_of(dlu).add(
            opt_payloads(s[i]),
        ).add(last));
        assert(payloads_of(dlu).add(opt_payloads(s[i])).add(last) == payloads_of(dl).add(
            opt_payloads(x),
        ).add(last));
        assert(payloads_of(dl).add(opt_payloads(x)).add(last) =~= payloads_of(s).add(
            opt_payloads(x),
        ));
    }
}

/// Equal multisets stay equal when a common part is cancelled.
proof fn lemma_multiset_add_cancel<A>(a: Multiset<A>, b: Multiset<A>, c: Multiset<A>)
    requires
        a.add(c) == b.add(c),
    ensures
        a == b,
{
    assert forall|e: A| a.count(e) == b.count(e) by {
        broadcast use vstd::multiset::group_multiset_axioms;

        assert(a.add(c).count(e) == b.add(c).count(e));
        assert(a.add(c).count(e) == a.count(e) + c.count(e));
        assert(b.add(c).count(e) == b.count(e) + c.count(e));
    }
    broadcast use vstd::multiset::group_multiset_axioms;

    assert(a =~= b);
}

/// Two stores that trade one payload contribution each keep their combined
/// multiset.
proof fn lemma_multiset_exchange<A>(
    a1: Multiset<A>,
    a2: Multiset<A>,
    b1: Multiset<A>,
    b2: Multiset<A>,
    x: Multiset<A>,
    y: Multiset<A>,
)
    requires
        a2.add(x) == a1.add(y),
        b2.add(y) == b1.add(x),
    ensures
        a2.add(b2) == a1.add(b1),
{
    assert forall|e: A| a2.add(b2).count(e) == a1.add(b1).count(e) by {
        broadcast use vstd::multiset::group_multiset_axioms;

        assert(a2.add(x).count(e) == a1.add(y).count(e));
        assert(a2.add(x).count(e) == a2.count(e) + x.count(e));
        assert(a1.add(y).count(e) == a1.count(e) + y.count(e));
        assert(b2.add(y).count(e) == b1.add(x).count(e));
        assert(b2.add(y).count(e) == b2.count(e) + y.count(e));
        assert(b1.add(x).count(e) == b1.count(e) + x.count(e));
    }
    broadcast use vstd::multiset::group_multiset_axioms;

    assert(a2.add(b2) =~= a1.add(b1));
}

/// Writing an in-bounds location keeps the grid's shape.
pub proof fn lemma_write_shape<A>(v: GridView<A>, l: Loc, x: Option<A>)
    requires
        v.wf(),
        l.in_bounds(v),
    ensures
        v.write(l, x).same_shape(v),
        v.write(l, x).wf(),
{
    match l {
        Loc::Cell(p, t) => {
            lemma_cell_index_bound(p as int, t as int, v.nplaces as int, v.ntimes as int);
        },
        Loc::Over(i) => {},
    }
}

/// Exchanging the contents of two in-bounds locations neither creates nor
/// destroys payloads: the multiset of payloads, the number of occupied
/// locations, and the grid's shape are all unchanged.
pub proof fn lemma_swapped_preserves_payloads<A>(v: GridView<A>, l1: Loc, l2: Loc)
    requires
        v.wf(),
        l1.in_bounds(v),
        l2.in_bounds(v),
    ensures
        v.swapped(l1, l2).wf(),
        v.swapped(l1, l2).same_shape(v),
        v.swapped(l1, l2).payloads() == v.payloads(),
        v.swapped(l1, l2).occupied_count() == v.occupied_count(),
{
    broadcast use vstd::multiset::group_multiset_axioms;

    let w = v.swapped(l1, l2);
    lemma_write_shape(v, l1, v.read(l2));
    lemma_write_shape(v.write(l1, v.read(l2)), l2, v.read(l1));
    lemma_payloads_of_concat(v.slots, v.unscheduled);
    lemma_payloads_of_concat(w.slots, w.unscheduled);
    match (l1, l2) {
        (Loc::Cell(p1, t1), Loc::Cell(p2, t2)) => {
            let i1 = p1 * v.ntimes + t1;
            let i2 = p2 * v.ntimes + t2;
            lemma_cell_index_bound(p1 as int, t1 as int, v.nplaces as int, v.ntimes as int);
            lemma_cell_index_bound(p2 as int, t2 as int, v.nplaces as int, v.ntimes as int);
            let s1 = v.slots.update(i1, v.slots[i2]);
            lemma_payloads_of_update(v.slots, i1, v.slots[i2]);
            lemma_payloads_of_update(s1, i2, v.slots[i1]);
            assert(s1[i2] == v.slots[i2]);
            assert(payloads_of(w.slots).add(opt_payloads(v.slots[i2])) == payloads_of(
                v.slots,
            ).add(opt_payloads(v.slots[i2])));
            lemma_multiset_add_cancel(
                payloads_of(w.slots),
                payloads_of(v.slots),
                opt_payloads(v.slots[i2]),
            );
            assert(w.payloads() == v.payloads());
        },
        (Loc::Cell(p1, t1), Loc::Over(i2)) => {
            let i1 = p1 * v.ntimes + t1;
            lemma_cell_index_bound(p1 as int, t1 as int, v.nplaces as int, v.ntimes as int);
            lemma_payloads_of_update(v.slots, i1, v.unscheduled[i2 as int]);
            lemma_payloads_of_update(v.unscheduled, i2 as int, v.slots[i1]);
            lemma_multiset_exchange(
                payloads_of(v.slots),
                payloads_of(w.slots),
                payloads_of(v.unscheduled),
                payloads_of(w.unscheduled),
                opt_payloads(v.slots[i1]),
                opt_payloads(v.unscheduled[i2 as int]),
            );
            assert(w.payloads() == v.payloads());
        },
        (Loc::Over(i1), Loc::Cell(p2, t2)) => {
            let i2 = p2 * v.ntimes + t2;
            lemma_cell_index_bound(p2 as int, t2 as int, v.nplaces as int, v.ntimes as int);
            lemma_payloads_of_update(v.unscheduled, i1 as int, v.slots[i2]);
            lemma_payloads_of_update(v.slots, i2, v.unscheduled[i1 as int]);
            lemma_multiset_exchange(
                payloads_of(v.slots),
                payloads_of(w.slots),
                payloads_of(v.unscheduled),
                payloads_of(w.unscheduled),
                opt_payloads(v.slots[i2]),
                opt_payloads(v.unscheduled[i1 as int]),
            );
            assert(w.payloads() == v.payloads());
        },
        (Loc::Over(i1), Loc::Over(i2)) => {
            let u1 = v.unscheduled.update(i1 as int, v.unscheduled[i2 as int]);
            lemma_payloads_of_update(v.unscheduled, i1 as int, v.unscheduled[i2 as int]);
            lemma_payloads_of_update(u1, i2 as int, v.unscheduled[i1 as int]);
            assert(u1[i2 as int] == v.unscheduled[i2 as int]);
            assert(payloads_of(w.unscheduled).add(opt_payloads(v.unscheduled[i2 as int]))
                == payloads_of(v.unscheduled).add(opt_payloads(v.unscheduled[i2 as int])));
            lemma_multiset_add_cancel(
                payloads_of(w.unscheduled),
                payloads_of(v.unscheduled),
                opt_payloads(v.unscheduled[i2 as int]),
            );
            assert(w.payloads() == v.payloads());
        },
    }
}

/// The grid after a whole sequence of swaps, applied left to right.
pub open spec fn swapped_all<A>(v: GridView<A>, swaps: Seq<(Loc, Loc)>) -> GridView<A>
    decreases swaps.len(),
{
    if swaps.len() == 0 {
        v
    } else {
        swapped_all(v.swapped(swaps.first().0, swaps.first().1), swaps.drop_first())
    }
}

/// Cardinality invariant: under any sequence of in-bounds `swap` calls the
/// multiset of payloads — and with it the count of occupied locations — is
/// exactly the one the grid started with; swaps only permute payloads.
pub proof fn lemma_swap_sequence_preserves_payloads<A>(v: GridView<A>, swaps: Seq<(Loc, Loc)>)
    requires
        v.wf(),
        forall|k: int|
            0 <= k < swaps.len() ==> (#[trigger] swaps[k]).0.in_bounds(v) && swaps[k].1.in_bounds(
                v,
            ),
    ensures
        swapped_all(v, swaps).wf(),
        swapped_all(v, swaps).same_shape(v),
        swapped_all(v, swaps).payloads() == v.payloads(),
        swapped_all(v, swaps).occupied_count() == v.occupied_count(),
    decreases swaps.len(),
{
    if swaps.len() == 0 {
    } else {
        let w = v.swapped(swaps.first().0, swaps.first().1);
        assert(swaps.first() == swaps[0]);
        lemma_swapped_preserves_payloads(v, swaps.first().0, swaps.first().1);
        assert(forall|k: int|
            0 <= k < swaps.drop_first().len() ==> (#[trigger] swaps.drop_first()[k])
                == swaps[k + 1]);
        lemma_swap_sequence_preserves_payloads(w, swaps.drop_first());
    }
}

/// Swapping two locations and then swapping them back restores the grid
/// exactly: a tentative swap can always be reverted.
pub proof fn lemma_swapped_involutive<A>(v: GridView<A>, l1: Loc, l2: Loc)
    requires
        v.wf(),
        l1.in_bounds(v),
        l2.in_bounds(v),
    ensures
        v.swapped(l1, l2).swapped(l2, l1) == v,
{
    if let Loc::Cell(p, t) = l1 {
        lemma_cell_index_bound(p as int, t as int, v.nplaces as int, v.ntimes as int);
    }
    if let Loc::Cell(p, t) = l2 {
        lemma_cell_index_bound(p as int, t as int, v.nplaces as int, v.ntimes as int);
    }
    let w = v.swapped(l1, l2);
    lemma_write_shape(v, l1, v.read(l2));
    lemma_write_shape(v.write(l1, v.read(l2)), l2, v.read(l1));
    assert(w.swapped(l2, l1).slots =~= v.slots);
    assert(w.swapped(l2, l1).unscheduled =~= v.unscheduled);
    assert(w.swapped(l2, l1) =~= v);
}

/// Swapping a location with itself changes nothing.
pub proof fn lemma_swapped_identity<A>(v: GridView<A>, l: Loc)
    requires
        v.wf(),
        l.in_bounds(v),
    ensures
        v.swapped(l, l) == v,
{
    if let Loc::Cell(p, t) = l {
        lemma_cell_index_bound(p as int, t as int, v.nplaces as int, v.ntimes as int);
    }
    assert(v.swapped(l, l).slots =~= v.slots);
    assert(v.swapped(l, l).unscheduled =~= v.unscheduled);
    assert(v.swapped(l, l) =~= v);
}

/// A swap does not care about the order of its two addresses.
pub proof fn lemma_swapped_symmetric<A>(v: GridView<A>, l1: Loc, l2: Loc)
    requires
        v.wf(),
        l1.in_bounds(v),
        l2.in_bounds(v),
    ensures
        v.swapped(l1, l2) == v.swapped(l2, l1),
{
    if let Loc::Cell(p, t) = l1 {
        lemma_cell_index_bound(p as int, t as int, v.nplaces as int, v.ntimes as int);
    }
    if let Loc::Cell(p, t) = l2 {
        lemma_cell_index_bound(p as int, t as int, v.nplaces as int, v.ntimes as int);
    }
    assert(v.swapped(l1, l2).slots =~= v.swapped(l2, l1).slots);
    assert(v.swapped(l1, l2).unscheduled =~= v.swapped(l2, l1).unscheduled);
    assert(v.swapped(l1, l2) =~= v.swapped(l2, l1));
}

/// Swapping two entries of a plain sequence keeps its multiset.
proof fn lemma_seq_swap_to_multiset<A>(s: Seq<A>, i: int, j: int)
    requires
        0 <= i < s.len(),
        0 <= j < s.len(),
    ensures
        s.update(i, s[j]).update(j, s[i]).to_multiset() == s.to_multiset(),
{
    broadcast use vstd::seq_lib::group_to_multiset_ensures;
    broadcast use vstd::multiset::group_multiset_axioms;

    let s1 = s.update(i, s[j]);
    let s2 = s1.update(j, s[i]);
    assert(s1[j] == s[j]);
    assert(s1.to_multiset() == s.to_multiset().insert(s[j]).remove(s[i]));
    assert(s2.to_multiset() == s1.to_multiset().insert(s[i]).remove(s[j]));
    assert(s.to_multiset().count(s[i]) > 0) by {
        assert(s.contains(s[i]));
    }
    assert(s.to_multiset().count(s[j]) > 0) by {
        assert(s.contains(s[j]));
    }
    assert forall|e: A| s2.to_multiset().count(e) == s.to_multiset().count(e) by {
        broadcast use vstd::multiset::group_multiset_axioms;

        let m = s.to_multiset();
        assert(m.insert(s[j]).count(e) == m.add(Multiset::singleton(s[j])).count(e));
        assert(m.insert(s[j]).remove(s[i]).count(e) == m.insert(s[j]).sub(
            Multiset::singleton(s[i]),
        ).count(e));
        assert(s1.to_multiset().insert(s[i]).count(e) == s1.to_multiset().add(
            Multiset::singleton(s[i]),
        ).count(e));
        assert(s2.to_multiset().count(e) == s1.to_multiset().insert(s[i]).sub(
            Multiset::singleton(s[j]),
        ).count(e));
        assert(m.count(s[i]) > 0);
        assert(m.count(s[j]) > 0);
    }
    assert(s2.to_multiset() =~= s.to_multiset());
}

/// A store that holds the payloads of `acts` in its first positions and
/// nothing after them holds exactly the multiset of `acts`.
pub proof fn lemma_payloads_of_packed<A>(s: Seq<Option<A>>, acts: Seq<A>)
    requires
        acts.len() <= s.len(),
        forall|k: int|
            0 <= k < s.len() ==> s[k] == (if k < acts.len() {
                Some(acts[k])
            } else {
                None::<A>
            }),
    ensures
        payloads_of(s) == acts.to_multiset(),
    decreases s.len(),
{
    broadcast use vstd::seq_lib::group_to_multiset_ensures;
    broadcast use vstd::multiset::group_multiset_axioms;

    if s.len() == 0 {
        assert forall|e: A| payloads_of(s).count(e) == acts.to_multiset().count(e) by {
            broadcast use vstd::seq_lib::group_to_multiset_ensures;
            broadcast use vstd::multiset::group_multiset_axioms;

            assert(!acts.contains(e));
        }
        assert(payloads_of(s) =~= acts.to_multiset());
    } else if acts.len() == s.len() {
        assert(s.last() == Some(acts.last()));
        lemma_payloads_of_packed(s.drop_last(), acts.drop_last());
        assert(acts =~= acts.drop_last().push(acts.last()));
        assert(acts.drop_last().push(acts.last()).to_multiset() == acts.drop_last().to_multiset()
            .insert(acts.last()));
        assert(payloads_of(s) =~= acts.to_multiset());
    } else {
        assert(s.last() == None::<A>);
        lemma_payloads_of_packed(s.drop_last(), acts);
        assert(payloads_of(s) =~= acts.to_multiset());
    }
}

/// A store whose entries are all empty holds no payloads, and every one of
/// its entries counts as empty.
pub proof fn lemma_all_none<A>(s: Seq<Option<A>>)
    requires
        forall|k: int| 0 <= k < s.len() ==> s[k] is None,
    ensures
        occupied_seq(s) == Seq::<A>::empty(),
        payloads_of(s) == Multiset::<A>::empty(),
        count_empty(s) == s.len(),
    decreases s.len(),
{
    if s.len() == 0 {
    } else {
        lemma_all_none(s.drop_last());
        assert(s.last() is None);
    }
}

/// Degenerate dimensions: a grid with zero places or zero times has no cells
/// at all, so no cell is empty and every payload sits in the overflow pool.
pub proof fn lemma_degenerate_dimensions<A>(v: GridView<A>)
    requires
        v.wf(),
        v.nplaces == 0 || v.ntimes == 0,
    ensures
        v.slots.len() == 0,
        count_empty(v.slots) == 0,
        v.payloads() == payloads_of(v.unscheduled),
{
    assert(v.capacity() == 0);
    assert(v.slots =~= Seq::<Option<A>>::empty());
    assert(v.locs() =~= v.unscheduled);
}

/// Payload multisets add up across concatenation.
pub proof fn lemma_payloads_of_concat<A>(s: Seq<Option<A>>, t: Seq<Option<A>>)
    ensures
        payloads_of(s + t) == payloads_of(s).add(payloads_of(t)),
    decreases t.len(),
{
    if t.len() == 0 {
        assert(s + t == s);
        assert(payloads_of(s + t) =~= payloads_of(s).add(payloads_of(t)));
    } else {
        assert((s + t).drop_last() == s + t.drop_last());
        assert((s + t).last() == t.last());
        lemma_payloads_of_concat(s, t.drop_last());
        assert(payloads_of(s + t) =~= payloads_of(s).add(payloads_of(t)));
    }
}

} // verus!
