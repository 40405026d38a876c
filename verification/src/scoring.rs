//! The standard scoring fixture: an integer version of the reference cost
//! formula, in fixed-point tenths. For a grid of activities it charges the
//! priorities of unscheduled activities, a large constant per empty cell,
//! per-time-slot priority and topic conflicts, and a lateness cost that
//! grows with the place index. Every arithmetic step saturates at
//! `u64::MAX`, so the score is total for every grid.

use vstd::prelude::*;

verus! {

use crate::activity::Activity;
use crate::engine::Penalty;
use crate::schedule::{count_empty, occupied_seq, GridView, Schedule};

/// Addition that stops at `u64::MAX` instead of wrapping.
pub open spec fn sat_add(a: u64, b: u64) -> u64 {
    if a + b > u64::MAX {
        u64::MAX
    } else {
        (a + b) as u64
    }
}

/// Multiplication that stops at `u64::MAX` instead of wrapping.
pub open spec fn sat_mul(a: u64, b: u64) -> u64 {
    if a * b > u64::MAX {
        u64::MAX
    } else {
        (a * b) as u64
    }
}

/// Executable saturating addition.
pub fn add_sat(a: u64, b: u64) -> (r: u64)
    ensures
        r == sat_add(a, b),
{
    a.saturating_add(b)
}

/// Executable saturating multiplication.
pub fn mul_sat(a: u64, b: u64) -> (r: u64)
    ensures
        r == sat_mul(a, b),
{
    match a.checked_mul(b) {
        Some(r) => r,
        None => u64::MAX,
    }
}

/// The weakly descending order in which squared priorities are ranked.
pub open spec fn desc() -> spec_fn(u64, u64) -> bool {
    |a: u64, b: u64| a >= b
}

/// The descending order is a total ordering, as the sorting lemmas require.
proof fn lemma_desc_total_ordering()
    ensures
        vstd::relations::total_ordering(desc()),
{
    let r = desc();
    assert forall|x: u64| #[trigger] r(x, x) by {}
    assert forall|x: u64, y: u64| #[trigger] r(x, y) && #[trigger] r(y, x) implies x == y by {}
    assert forall|x: u64, y: u64, z: u64| #[trigger] r(x, y) && #[trigger] r(y, z) implies r(
        x,
        z,
    ) by {}
    assert forall|x: u64, y: u64| #[trigger] r(x, y) || #[trigger] r(y, x) by {}
}

/// Sorts into weakly descending order: the result is exactly the input's
/// `sort_by` under that order.
fn sort_desc(v: &Vec<u64>) -> (r: Vec<u64>)
    ensures
        r@ == v@.sort_by(desc()),
        r@.len() == v@.len(),
{
    broadcast use vstd::seq_lib::group_to_multiset_ensures;

    let mut r: Vec<u64> = Vec::new();
    let mut k: usize = 0;
    while k < v.len()
        invariant
            k <= v@.len(),
            r@.len() == k,
            vstd::relations::sorted_by(r@, desc()),
            r@.to_multiset() == v@.take(k as int).to_multiset(),
        decreases v@.len() - k,
    {
        let x = v[k];
        let mut pos: usize = 0;
        while pos < r.len() && x <= r[pos]
            invariant
                pos <= r@.len(),
                forall|q: int| 0 <= q < pos ==> r@[q] >= x,
            decreases r@.len() - pos,
        {
            pos = pos + 1;
        }
        let ghost before = r@;
        r.insert(pos, x);
        proof {
            broadcast use vstd::seq_lib::group_to_multiset_ensures;

            before.insert_ensures(pos as int, x);
            assert forall|i: int, j: int| 0 <= i < j < r@.len() implies desc()(r@[i], r@[j]) by {
                if j < pos {
                    assert(r@[i] == before[i] && r@[j] == before[j]);
                } else if i > pos {
                    assert(r@[i] == before[i - 1] && r@[j] == before[j - 1]);
                } else if i == pos {
                    assert(r@[i] == x && r@[j] == before[j - 1]);
                    assert(0 <= pos < before.len());
                    assert(before[pos as int] < x);
                    if (pos as int) < j - 1 {
                        assert(desc()(before[pos as int], before[j - 1]));
                    }
                    assert(x >= before[j - 1]);
                } else if j == pos {
                    assert(r@[i] == before[i] && r@[j] == x);
                } else {
                    assert(i < pos < j);
                    assert(r@[i] == before[i] && r@[j] == before[j - 1]);
                    assert(before[i] >= x);
                    assert(pos < before.len() ==> before[pos as int] < x);
                }
            }
            assert(v@.take(k + 1).drop_last() == v@.take(k as int));
            assert(v@.take(k + 1) =~= v@.take(k as int).push(v@[k as int]));
            assert(v@.take(k as int).push(v@[k as int]).to_multiset() == v@.take(
                k as int,
            ).to_multiset().insert(v@[k as int]));
            assert(r@.to_multiset() =~= v@.take(k + 1).to_multiset());
        }
        k = k + 1;
    }
    proof {
        lemma_desc_total_ordering();
        assert(v@.take(v@.len() as int) == v@);
        v@.lemma_sort_by_ensures(desc());
        vstd::seq_lib::lemma_sorted_unique(r@, v@.sort_by(desc()), desc());
        assert(r@ == v@.sort_by(desc()));
    }
    r
}

/// The integer square root, rounded down.
pub open spec fn isqrt_spec(x: nat) -> nat
    decreases x,
{
    if x == 0 {
        0
    } else {
        let r = isqrt_spec((x - 1) as nat);
        if (r + 1) * (r + 1) <= x {
            (r + 1) as nat
        } else {
            r
        }
    }
}

/// `isqrt_spec(x)` is the unique `r` with `r^2 <= x < (r+1)^2`.
pub proof fn lemma_isqrt_spec_bounds(x: nat)
    ensures
        isqrt_spec(x) * isqrt_spec(x) <= x,
        x < (isqrt_spec(x) + 1) * (isqrt_spec(x) + 1),
    decreases x,
{
    if x == 0 {
        assert(isqrt_spec(0) == 0);
        assert(x < (isqrt_spec(x) + 1) * (isqrt_spec(x) + 1)) by (nonlinear_arith)
            requires
                x == 0nat,
                isqrt_spec(x) == 0nat,
        ;
    } else {
        lemma_isqrt_spec_bounds((x - 1) as nat);
        let r = isqrt_spec((x - 1) as nat);
        assert(isqrt_spec(x) == if (r + 1) * (r + 1) <= x {
            (r + 1) as nat
        } else {
            r
        });
        if (r + 1) * (r + 1) <= x {
            assert(isqrt_spec(x) == r + 1);
            assert(x - 1 < (r + 1) * (r + 1));
            assert(x < (r + 2) * (r + 2)) by (nonlinear_arith)
                requires
                    x <= (r + 1) * (r + 1),
                    r >= 0,
            ;
        } else {
            assert(isqrt_spec(x) == r);
            assert(r * r <= x - 1 <= x);
            assert(x < (r + 1) * (r + 1));
        }
    }
}

/// Any `r` with `r^2 <= x < (r+1)^2` is `isqrt_spec(x)`.
pub proof fn lemma_isqrt_unique(x: nat, r: nat)
    requires
        r * r <= x,
        x < (r + 1) * (r + 1),
    ensures
        r == isqrt_spec(x),
{
    lemma_isqrt_spec_bounds(x);
    let s = isqrt_spec(x);
    if r < s {
        assert((r + 1) * (r + 1) <= s * s) by (nonlinear_arith)
            requires
                r + 1 <= s,
                r >= 0,
        ;
    } else if s < r {
        assert((s + 1) * (s + 1) <= r * r) by (nonlinear_arith)
            requires
                s + 1 <= r,
                s >= 0,
        ;
    }
}

/// Computes the integer square root by bisection.
pub fn isqrt(x: u64) -> (r: u64)
    ensures
        r == isqrt_spec(x as nat),
{
    let mut lo: u64 = 0;
    let mut hi: u64 = 4294967296;
    proof {
        assert((hi * hi) as int > x as int) by (nonlinear_arith)
            requires
                hi == 4294967296u64,
                x <= u64::MAX,
        ;
    }
    while lo + 1 < hi
        invariant
            lo < hi,
            hi <= 4294967296,
            (lo * lo) as int <= x as int,
            (x as int) < (hi as int) * (hi as int),
        decreases hi - lo,
    {
        let mid = lo + (hi - lo) / 2;
        proof {
            assert(lo < mid < hi);
            assert((mid as int) * (mid as int) <= 0x10000000000000000int) by (nonlinear_arith)
                requires
                    0 <= mid <= 4294967296u64,
            ;
        }
        let sq = (mid as u128) * (mid as u128);
        if sq <= x as u128 {
            lo = mid;
        } else {
            hi = mid;
        }
    }
    proof {
        assert((x as int) < ((lo + 1) as int) * ((lo + 1) as int));
        lemma_isqrt_unique(x as nat, lo as nat);
    }
    lo
}

/// The squared priority of one activity.
pub open spec fn square_priority(a: Activity) -> u64 {
    sat_mul(a.priority as u64, a.priority as u64)
}

/// Column `t` of the grid: the cell contents at every place, in place order.
pub open spec fn column(v: GridView<Activity>, t: int) -> Seq<Option<Activity>> {
    Seq::new(v.nplaces, |p: int| v.slots[p * v.ntimes + t])
}

/// The squared priorities of a column's occupied entries, in place order.
pub open spec fn squares_of(col: Seq<Option<Activity>>) -> Seq<u64> {
    occupied_seq(col).map_values(|a: Activity| square_priority(a))
}

/// The saturating sum of the three largest entries (all of them when there
/// are fewer than three).
pub open spec fn top3_sum(s: Seq<u64>) -> u64 {
    let t = s.sort_by(desc());
    if s.len() >= 3 {
        sat_add(sat_add(t[0], t[1]), t[2])
    } else if s.len() == 2 {
        sat_add(t[0], t[1])
    } else if s.len() == 1 {
        t[0]
    } else {
        0
    }
}

/// The priority-conflict charge of one column: the integer square root of
/// 100 times the sum of its three largest squared priorities.
pub open spec fn priority_conflict(col: Seq<Option<Activity>>) -> u64 {
    isqrt_spec(sat_mul(100, top3_sum(squares_of(col))) as nat) as u64
}

/// How many occupied entries of `col` carry the given topic.
pub open spec fn count_topic(col: Seq<Option<Activity>>, topic: usize) -> u64
    decreases col.len(),
{
    if col.len() == 0 {
        0
    } else {
        let rest = count_topic(col.drop_last(), topic);
        match col.last() {
            Some(a) => if a.topic == topic {
                sat_add(rest, 1)
            } else {
                rest
            },
            None => rest,
        }
    }
}

/// The number of ordered pairs of occupied entries of `col` that share a
/// topic: each occupied entry counts its same-topic predecessors twice and
/// itself once, so a topic occurring `c` times contributes `c * c`.
pub open spec fn topic_pairs(col: Seq<Option<Activity>>) -> u64
    decreases col.len(),
{
    if col.len() == 0 {
        0
    } else {
        let rest = topic_pairs(col.drop_last());
        match col.last() {
            Some(a) => sat_add(
                rest,
                sat_add(sat_mul(2, count_topic(col.drop_last(), a.topic)), 1),
            ),
            None => rest,
        }
    }
}

/// The conflict charge of the first `t` time slots: for each, the priority
/// charge plus 100 times its same-topic pairs.
pub open spec fn conflicts_upto(v: GridView<Activity>, t: int) -> u64
    decreases t,
{
    if t <= 0 {
        0
    } else {
        sat_add(
            conflicts_upto(v, t - 1),
            sat_add(
                priority_conflict(column(v, t - 1)),
                sat_mul(100, topic_pairs(column(v, t - 1))),
            ),
        )
    }
}

/// The lateness charge of the first `t` cells of row `p`: each occupied cell
/// costs its priority times its place index.
pub open spec fn row_lateness_upto(v: GridView<Activity>, p: int, t: int) -> u64
    decreases t,
{
    if t <= 0 {
        0
    } else {
        sat_add(
            row_lateness_upto(v, p, t - 1),
            match v.slots[p * v.ntimes + (t - 1)] {
                Some(a) => sat_mul(a.priority as u64, p as u64),
                None => 0,
            },
        )
    }
}

/// The lateness charge of the first `p` rows.
pub open spec fn lateness_upto(v: GridView<Activity>, p: int) -> u64
    decreases p,
{
    if p <= 0 {
        0
    } else {
        sat_add(lateness_upto(v, p - 1), row_lateness_upto(v, p - 1, v.ntimes as int))
    }
}

/// The saturating sum of a payload sequence's priorities.
pub open spec fn priority_sum(s: Seq<Activity>) -> u64
    decreases s.len(),
{
    if s.len() == 0 {
        0
    } else {
        sat_add(priority_sum(s.drop_last()), s.last().priority as u64)
    }
}

/// The whole fixture formula, ten times the reference cost so that the
/// lateness tenths stay integral: ten times each unscheduled priority, plus
/// 100000 per empty cell, plus per-time-slot conflict charges, plus the
/// lateness charges.
pub open spec fn fixture_penalty(v: GridView<Activity>) -> u64 {
    sat_add(
        sat_add(
            sat_mul(10, priority_sum(occupied_seq(v.unscheduled))),
            sat_mul(100000, count_empty(v.slots) as u64),
        ),
        sat_add(conflicts_upto(v, v.ntimes as int), lateness_upto(v, v.nplaces as int)),
    )
}

/// A column with no occupied entry contributes nothing to the topic charge.
proof fn lemma_topic_pairs_all_none(col: Seq<Option<Activity>>)
    requires
        forall|k: int| 0 <= k < col.len() ==> col[k] is None,
    ensures
        topic_pairs(col) == 0,
    decreases col.len(),
{
    if col.len() == 0 {
    } else {
        lemma_topic_pairs_all_none(col.drop_last());
        assert(col.last() is None);
    }
}

/// A row with no occupied cell contributes nothing to the lateness charge.
proof fn lemma_row_lateness_empty(v: GridView<Activity>, p: int, t: int)
    requires
        v.wf(),
        0 <= p < v.nplaces,
        0 <= t <= v.ntimes,
        forall|k: int| 0 <= k < v.slots.len() ==> v.slots[k] is None,
    ensures
        row_lateness_upto(v, p, t) == 0,
    decreases t,
{
    if t <= 0 {
    } else {
        lemma_row_lateness_empty(v, p, t - 1);
        crate::schedule::lemma_cell_index_bound(p, t - 1, v.nplaces as int, v.ntimes as int);
        assert(v.slots[p * v.ntimes + (t - 1)] is None);
    }
}

/// Empty instance: a well-formed grid with every cell empty and no overflow
/// pool is charged exactly the empty-cell constant per cell — all other
/// terms of the fixture formula vanish.
pub proof fn lemma_empty_grid_penalty(v: GridView<Activity>)
    requires
        v.wf(),
        forall|k: int| 0 <= k < v.slots.len() ==> v.slots[k] is None,
        v.unscheduled.len() == 0,
    ensures
        fixture_penalty(v) == sat_mul(100000, v.capacity() as u64),
{
    crate::schedule::lemma_all_none(v.slots);
    crate::schedule::lemma_all_none(v.unscheduled);
    assert(priority_sum(occupied_seq(v.unscheduled)) == 0);
    assert(sat_mul(10, 0) == 0);
    // Every column is entirely empty, so each time slot contributes nothing.
    assert forall|t: int| 0 <= t <= v.ntimes implies conflicts_upto(v, t) == 0 by {
        lemma_conflicts_empty(v, t);
    }
    // No occupied cell means no lateness either.
    assert forall|p: int| 0 <= p <= v.nplaces implies lateness_upto(v, p) == 0 by {
        lemma_lateness_empty(v, p);
    }
    assert(sat_add(0, sat_mul(100000, count_empty(v.slots) as u64)) == sat_mul(
        100000,
        count_empty(v.slots) as u64,
    ));
    assert(sat_add(0, 0) == 0);
    assert(count_empty(v.slots) == v.capacity());
}

/// All-empty grids have zero conflict charge up to any time slot.
proof fn lemma_conflicts_empty(v: GridView<Activity>, t: int)
    requires
        v.wf(),
        t <= v.ntimes,
        forall|k: int| 0 <= k < v.slots.len() ==> v.slots[k] is None,
    ensures
        conflicts_upto(v, t) == 0,
    decreases t,
{
    if t <= 0 {
    } else {
        lemma_conflicts_empty(v, t - 1);
        let col = column(v, t - 1);
        assert forall|p: int| 0 <= p < col.len() implies col[p] is None by {
            crate::schedule::lemma_cell_index_bound(p, t - 1, v.nplaces as int, v.ntimes as int);
        }
        crate::schedule::lemma_all_none(col);
        lemma_topic_pairs_all_none(col);
        assert(squares_of(col) =~= Seq::<u64>::empty());
        assert(top3_sum(squares_of(col)) == 0);
        assert(sat_mul(100, 0) == 0);
        assert(isqrt_spec(0) == 0);
        assert(priority_conflict(col) == 0);
        assert(sat_mul(100, topic_pairs(col)) == 0);
        assert(sat_add(0, sat_add(0, 0)) == 0);
    }
}

/// All-empty grids have zero lateness charge up to any row.
proof fn lemma_lateness_empty(v: GridView<Activity>, p: int)
    requires
        v.wf(),
        p <= v.nplaces,
        forall|k: int| 0 <= k < v.slots.len() ==> v.slots[k] is None,
    ensures
        lateness_upto(v, p) == 0,
    decreases p,
{
    if p <= 0 {
    } else {
        lemma_lateness_empty(v, p - 1);
        lemma_row_lateness_empty(v, p - 1, v.ntimes as int);
    }
}

impl Penalty for Schedule<Activity> {
    /// The standard fixture scoring.
    open spec fn spec_penalty(v: GridView<Activity>) -> u64 {
        fixture_penalty(v)
    }

    /// The scorer reads the grid by coordinates, so it needs the shape
    /// invariant and nothing else.
    open spec fn penalty_ready(v: GridView<Activity>) -> bool {
        v.wf()
    }

    fn penalty(&self) -> (r: u64) {
        let ghost v = self@;
        // Unscheduled activities, charged by priority.
        let un = self.get_unscheduled_activities();
        let mut missed: u64 = 0;
        let mut q: usize = 0;
        while q < un.len()
            invariant
                q <= un@.len(),
                un@ == occupied_seq(v.unscheduled),
                missed == priority_sum(un@.take(q as int)),
            decreases un@.len() - q,
        {
            proof {
                assert(un@.take(q + 1).drop_last() == un@.take(q as int));
            }
            missed = add_sat(missed, un[q].priority as u64);
            q = q + 1;
        }
        proof {
            assert(un@.take(un@.len() as int) == un@);
        }
        let term_missed = mul_sat(10, missed);
        // Empty grid cells.
        let term_empty = mul_sat(100000, self.empty_slots_count() as u64);
        // Per-time-slot conflict charges.
        let (nplaces, ntimes) = self.dimensions();
        let cells = self.slots();
        let mut conf: u64 = 0;
        let mut t: usize = 0;
        while t < ntimes
            invariant
                t <= ntimes,
                v == self@,
                v.wf(),
                nplaces == v.nplaces,
                ntimes == v.ntimes,
                cells@ == v.slots,
                conf == conflicts_upto(v, t as int),
            decreases ntimes - t,
        {
            let ghost col = column(v, t as int);
            let mut squares: Vec<u64> = Vec::new();
            let mut pairs: u64 = 0;
            let mut p: usize = 0;
            while p < nplaces
                invariant
                    p <= nplaces,
                    t < ntimes,
                    v == self@,
                    v.wf(),
                    nplaces == v.nplaces,
                    ntimes == v.ntimes,
                    cells@ == v.slots,
                    col == column(v, t as int),
                    squares@ == squares_of(col.take(p as int)),
                    pairs == topic_pairs(col.take(p as int)),
                decreases nplaces - p,
            {
                proof {
                    crate::schedule::lemma_cell_index_bound(
                        p as int,
                        t as int,
                        nplaces as int,
                        ntimes as int,
                    );
                    assert(cells@.len() == cells.len());
                    assert(col.take(p + 1).drop_last() == col.take(p as int));
                    assert(col.take(p + 1).last() == v.slots[p * v.ntimes + t]);
                }
                let idx = p * ntimes + t;
                let cell = cells[idx];
                if let Some(a) = cell {
                    let sq = mul_sat(a.priority as u64, a.priority as u64);
                    squares.push(sq);
                    proof {
                        assert(occupied_seq(col.take(p + 1)) == occupied_seq(
                            col.take(p as int),
                        ).push(a));
                        assert(squares@ =~= squares_of(col.take(p + 1)));
                    }
                    let mut cnt: u64 = 0;
                    let mut w: usize = 0;
                    while w < p
                        invariant
                            w <= p,
                            p < nplaces,
                            t < ntimes,
                            v == self@,
                            v.wf(),
                            nplaces == v.nplaces,
                            ntimes == v.ntimes,
                            cells@ == v.slots,
                            col == column(v, t as int),
                            cnt == count_topic(col.take(w as int), a.topic),
                        decreases p - w,
                    {
                        proof {
                            crate::schedule::lemma_cell_index_bound(
                                w as int,
                                t as int,
                                nplaces as int,
                                ntimes as int,
                            );
                            assert(cells@.len() == cells.len());
                            assert(col.take(w + 1).drop_last() == col.take(w as int));
                            assert(col.take(w + 1).last() == v.slots[w * v.ntimes + t]);
                        }
                        let widx = w * ntimes + t;
                        if let Some(b) = cells[widx] {
                            if b.topic == a.topic {
                                cnt = add_sat(cnt, 1);
                            }
                        }
                        w = w + 1;
                    }
                    pairs = add_sat(pairs, add_sat(mul_sat(2, cnt), 1));
                } else {
                    proof {
                        assert(occupied_seq(col.take(p + 1)) == occupied_seq(col.take(p as int)));
                        assert(squares@ =~= squares_of(col.take(p + 1)));
                    }
                }
                p = p + 1;
            }
            proof {
                assert(col.take(col.len() as int) == col);
            }
            let sorted = sort_desc(&squares);
            let big3: u64 = if sorted.len() >= 3 {
                add_sat(add_sat(sorted[0], sorted[1]), sorted[2])
            } else if sorted.len() == 2 {
                add_sat(sorted[0], sorted[1])
            } else if sorted.len() == 1 {
                sorted[0]
            } else {
                0
            };
            proof {
                assert(big3 == top3_sum(squares_of(col)));
            }
            let pc = isqrt(mul_sat(100, big3));
            conf = add_sat(conf, add_sat(pc, mul_sat(100, pairs)));
            t = t + 1;
        }
        // Lateness: each scheduled activity costs its priority times its
        // place index.
        let mut late: u64 = 0;
        let mut p: usize = 0;
        while p < nplaces
            invariant
                p <= nplaces,
                v == self@,
                v.wf(),
                nplaces == v.nplaces,
                ntimes == v.ntimes,
                cells@ == v.slots,
                late == lateness_upto(v, p as int),
            decreases nplaces - p,
        {
            let mut row: u64 = 0;
            let mut t2: usize = 0;
            while t2 < ntimes
                invariant
                    t2 <= ntimes,
                    p < nplaces,
                    v == self@,
                    v.wf(),
                    nplaces == v.nplaces,
                    ntimes == v.ntimes,
                    cells@ == v.slots,
                    row == row_lateness_upto(v, p as int, t2 as int),
                decreases ntimes - t2,
            {
                proof {
                    crate::schedule::lemma_cell_index_bound(
                        p as int,
                        t2 as int,
                        nplaces as int,
                        ntimes as int,
                    );
                    assert(cells@.len() == cells.len());
                }
                let idx = p * ntimes + t2;
                if let Some(a) = cells[idx] {
                    row = add_sat(row, mul_sat(a.priority as u64, p as u64));
                }
                t2 = t2 + 1;
            }
            late = add_sat(late, row);
            p = p + 1;
        }
        add_sat(add_sat(term_missed, term_empty), add_sat(conf, late))
    }
}

} // verus!
