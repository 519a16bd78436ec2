//! Cost propagation from a target cell, and the step each cell takes toward
//! it. Both work on a box of any depth; a planar grid has depth one.
use vstd::prelude::*;
use std::collections::VecDeque;
use crate::grid::{mask_of, Tile};
use crate::lattice::{
    direction_of, lemma_index_bounds, lemma_index_injective, lemma_index_onto, lemma_opposite, offset,
    opposite, offset_at, shift, step_weight, walk_end,
    walk_ok, walk_weight, weight_at, Lattice, Point, NEIGHBOURS, NO_STEP, UNREACHABLE,
};

verus! {

pub open spec fn lattice_of(w: usize, h: usize, d: usize, tiles: Seq<Tile>) -> Lattice {
    Lattice { w: w as int, h: h as int, d: d as int, blocked: mask_of(tiles) }
}

pub open spec fn point_of(c: (usize, usize, usize)) -> Point {
    (c.0 as int, c.1 as int, c.2 as int)
}

/// Some walk through free cells leads from `t` to `p` with weight `c`.
pub open spec fn reached_by(lat: Lattice, t: Point, p: Point, c: int) -> bool {
    exists|ks: Seq<int>|
        #![trigger walk_end(t, ks)]
        walk_ok(lat, t, ks) && walk_end(t, ks) == p && walk_weight(ks) == c
}

/// `costs` holds, for each cell, the least weight of a walk through free
/// cells from `t`, or `UNREACHABLE` where no walk weighs less than that.
pub open spec fn least_costs(lat: Lattice, t: Point, costs: Seq<i32>) -> bool {
    &&& costs.len() == lat.w * lat.h * lat.d
    &&& forall|p: Point|
        #![trigger lat.index(p)]
        lat.in_bounds(p) && costs[lat.index(p)] != UNREACHABLE ==> reached_by(
            lat,
            t,
            p,
            costs[lat.index(p)] as int,
        )
    &&& forall|ks: Seq<int>|
        #![trigger walk_ok(lat, t, ks)]
        walk_ok(lat, t, ks) && walk_weight(ks) < UNREACHABLE ==> costs[lat.index(
            walk_end(t, ks),
        )] <= walk_weight(ks)
}

/// No step from `p` to one of its first `n` neighbours would lower that
/// neighbour's cost.
pub open spec fn relaxed_upto(lat: Lattice, costs: Seq<i32>, p: Point, n: int) -> bool {
    forall|k: int|
        #![trigger shift(p, k)]
        0 <= k < n && lat.is_free(shift(p, k)) && costs[lat.index(p)] + step_weight(k)
            < UNREACHABLE ==> costs[lat.index(shift(p, k))] <= costs[lat.index(p)] + step_weight(
            k,
        )
}

/// Each finite cost is the weight of the walk recorded for its cell.
pub open spec fn witnessed(lat: Lattice, t: Point, costs: Seq<i32>, paths: Seq<Seq<int>>) -> bool {
    forall|p: Point|
        #![trigger lat.index(p)]
        lat.in_bounds(p) && costs[lat.index(p)] != UNREACHABLE ==> {
            &&& walk_ok(lat, t, paths[lat.index(p)])
            &&& walk_end(t, paths[lat.index(p)]) == p
            &&& walk_weight(paths[lat.index(p)]) == costs[lat.index(p)]
        }
}

pub open spec fn queued(q: Seq<(usize, usize, usize)>, p: Point) -> bool {
    exists|i: int| 0 <= i < q.len() && point_of(#[trigger] q[i]) == p
}

pub open spec fn total(s: Seq<i32>) -> int
    decreases s.len(),
{
    if s.len() == 0 {
        0
    } else {
        total(s.drop_last()) + s.last()
    }
}

proof fn lemma_total_update(s: Seq<i32>, i: int, v: i32)
    requires
        0 <= i < s.len(),
    ensures
        total(s.update(i, v)) == total(s) - s[i] + v,
    decreases s.len(),
{
    if i == s.len() - 1 {
        assert(s.update(i, v).drop_last() =~= s.drop_last());
    } else {
        assert(s.update(i, v).drop_last() =~= s.drop_last().update(i, v));
        lemma_total_update(s.drop_last(), i, v);
    }
}

proof fn lemma_total_nonneg(s: Seq<i32>)
    requires
        forall|i: int| 0 <= i < s.len() ==> s[i] >= 0,
    ensures
        total(s) >= 0,
    decreases s.len(),
{
    if s.len() > 0 {
        lemma_total_nonneg(s.drop_last());
    }
}

pub proof fn lemma_walk_end_free(lat: Lattice, t: Point, ks: Seq<int>)
    requires
        walk_ok(lat, t, ks),
    ensures
        lat.is_free(walk_end(t, ks)),
{
}

pub proof fn lemma_walk_push(lat: Lattice, t: Point, ks: Seq<int>, k: int)
    requires
        walk_ok(lat, t, ks),
        0 <= k < 26,
        lat.is_free(shift(walk_end(t, ks), k)),
    ensures
        walk_ok(lat, t, ks.push(k)),
        walk_end(t, ks.push(k)) == shift(walk_end(t, ks), k),
        walk_weight(ks.push(k)) == walk_weight(ks) + step_weight(k),
{
    assert(ks.push(k).drop_last() =~= ks);
}

proof fn lemma_queued_push(q: Seq<(usize, usize, usize)>, e: (usize, usize, usize), p: Point)
    ensures
        queued(q.push(e), p) == (queued(q, p) || point_of(e) == p),
{
    if queued(q, p) {
        let i = choose|i: int| 0 <= i < q.len() && point_of(#[trigger] q[i]) == p;
        assert(q.push(e)[i] == q[i]);
    }
    if point_of(e) == p {
        assert(q.push(e)[q.len() as int] == e);
    }
    if queued(q.push(e), p) {
        let i = choose|i: int| 0 <= i < q.push(e).len() && point_of(#[trigger] q.push(e)[i]) == p;
        if i < q.len() {
            assert(q.push(e)[i] == q[i]);
        }
    }
}

proof fn lemma_queued_pop(q: Seq<(usize, usize, usize)>, p: Point)
    requires
        q.len() > 0,
    ensures
        queued(q, p) == (queued(q.subrange(1, q.len() as int), p) || point_of(q[0]) == p),
{
    let r = q.subrange(1, q.len() as int);
    if queued(q, p) {
        let i = choose|i: int| 0 <= i < q.len() && point_of(#[trigger] q[i]) == p;
        if i > 0 {
            assert(r[i - 1] == q[i]);
        }
    }
    if queued(r, p) {
        let i = choose|i: int| 0 <= i < r.len() && point_of(#[trigger] r[i]) == p;
        assert(q[i + 1] == r[i]);
    }
}

/// Lowering the cost of a cell other than `p` keeps `p`'s steps relaxed.
proof fn lemma_lower_keeps_relaxed(lat: Lattice, costs: Seq<i32>, i: int, v: i32, p: Point, n: int)
    requires
        lat.wf(),
        costs.len() == lat.blocked.len(),
        lat.in_bounds(p),
        relaxed_upto(lat, costs, p, n),
        0 <= i < costs.len(),
        v < costs[i],
        i != lat.index(p),
    ensures
        relaxed_upto(lat, costs.update(i, v), p, n),
{
    let c2 = costs.update(i, v);
    assert forall|k: int|
        #![trigger shift(p, k)]
        0 <= k < n && lat.is_free(shift(p, k)) && c2[lat.index(p)] + step_weight(k)
            < UNREACHABLE implies c2[lat.index(shift(p, k))] <= c2[lat.index(p)] + step_weight(
        k,
    ) by {
        lemma_index_bounds(lat, p);
        lemma_index_bounds(lat, shift(p, k));
        assert(c2[lat.index(p)] == costs[lat.index(p)]);
        assert(costs[lat.index(shift(p, k))] <= costs[lat.index(p)] + step_weight(k));
    }
}

/// Once every cell with a finite cost is relaxed, no walk from the target is
/// lighter than the cost at its end.
proof fn lemma_walks_bounded(lat: Lattice, t: Point, costs: Seq<i32>, ks: Seq<int>)
    requires
        lat.wf(),
        costs.len() == lat.blocked.len(),
        lat.in_bounds(t),
        costs[lat.index(t)] == 0,
        forall|p: Point|
            #![trigger lat.index(p)]
            lat.in_bounds(p) && costs[lat.index(p)] != UNREACHABLE ==> relaxed_upto(
                lat,
                costs,
                p,
                26,
            ),
        walk_ok(lat, t, ks),
        walk_weight(ks) < UNREACHABLE,
    ensures
        costs[lat.index(walk_end(t, ks))] <= walk_weight(ks),
    decreases ks.len(),
{
    if ks.len() > 0 {
        let pre = ks.drop_last();
        let k = ks.last();
        lemma_walks_bounded(lat, t, costs, pre);
        let q = walk_end(t, pre);
        lemma_walk_end_free(lat, t, pre);
        assert(relaxed_upto(lat, costs, q, 26));
        assert(shift(q, k) == walk_end(t, ks));
    }
}

/// Every cell with a finite cost, off the worklist and other than `skip`, is
/// relaxed.
pub open spec fn settled_except(
    lat: Lattice,
    costs: Seq<i32>,
    q: Seq<(usize, usize, usize)>,
    skip: Point,
) -> bool {
    forall|p: Point|
        #![trigger lat.index(p)]
        lat.in_bounds(p) && costs[lat.index(p)] != UNREACHABLE && !queued(q, p) && p != skip
            ==> relaxed_upto(lat, costs, p, 26)
}

proof fn lemma_offset_unit(k: int)
    requires
        0 <= k < 26,
    ensures
        -1 <= offset(k).0 <= 1,
        -1 <= offset(k).1 <= 1,
        -1 <= offset(k).2 <= 1,
        offset(k) != (0int, 0int, 0int),
        10 <= step_weight(k) <= 17,
{
}

/// The neighbour `k` of `cp` was not lowered: `cp` is relaxed one step
/// further.
proof fn lemma_step_kept(lat: Lattice, costs: Seq<i32>, cp: Point, k: int)
    requires
        lat.wf(),
        costs.len() == lat.blocked.len(),
        lat.in_bounds(cp),
        0 <= k < 26,
        relaxed_upto(lat, costs, cp, k),
        !lat.is_free(shift(cp, k)) || costs[lat.index(cp)] + step_weight(k) >= UNREACHABLE
            || costs[lat.index(shift(cp, k))] <= costs[lat.index(cp)] + step_weight(k),
    ensures
        relaxed_upto(lat, costs, cp, k + 1),
{
    assert forall|kk: int|
        #![trigger shift(cp, kk)]
        0 <= kk < k + 1 && lat.is_free(shift(cp, kk)) && costs[lat.index(cp)] + step_weight(kk)
            < UNREACHABLE implies costs[lat.index(shift(cp, kk))] <= costs[lat.index(cp)]
        + step_weight(kk) by {
        if kk < k {
            assert(relaxed_upto(lat, costs, cp, k));
        }
    }
}

/// Lowering neighbour `k` of `cp` to the cost through `cp`, recording the
/// walk through `cp` and putting the neighbour on the worklist keeps every
/// invariant of the propagation and lowers the total.
proof fn lemma_step_lowered(
    lat: Lattice,
    tp: Point,
    costs: Seq<i32>,
    paths: Seq<Seq<int>>,
    q: Seq<(usize, usize, usize)>,
    cp: Point,
    k: int,
    e: (usize, usize, usize),
)
    requires
        lat.wf(),
        costs.len() == lat.blocked.len(),
        paths.len() == lat.blocked.len(),
        lat.in_bounds(tp),
        costs[lat.index(tp)] == 0,
        forall|i: int| 0 <= i < costs.len() ==> costs[i] >= 0,
        witnessed(lat, tp, costs, paths),
        settled_except(lat, costs, q, cp),
        lat.in_bounds(cp),
        0 <= k < 26,
        relaxed_upto(lat, costs, cp, k),
        point_of(e) == shift(cp, k),
        lat.is_free(shift(cp, k)),
        costs[lat.index(cp)] != UNREACHABLE,
        costs[lat.index(cp)] + step_weight(k) < costs[lat.index(shift(cp, k))],
    ensures
        ({
            let ni = lat.index(shift(cp, k));
            let c2 = costs.update(ni, (costs[lat.index(cp)] + step_weight(k)) as i32);
            let p2 = paths.update(ni, paths[lat.index(cp)].push(k));
            let q2 = q.push(e);
            &&& c2[lat.index(tp)] == 0
            &&& c2[lat.index(cp)] == costs[lat.index(cp)]
            &&& forall|i: int| 0 <= i < c2.len() ==> c2[i] >= 0
            &&& witnessed(lat, tp, c2, p2)
            &&& settled_except(lat, c2, q2, cp)
            &&& relaxed_upto(lat, c2, cp, k + 1)
            &&& total(c2) < total(costs)
        }),
{
    let np = shift(cp, k);
    let ni = lat.index(np);
    let cand = (costs[lat.index(cp)] + step_weight(k)) as i32;
    let c2 = costs.update(ni, cand);
    let p2 = paths.update(ni, paths[lat.index(cp)].push(k));
    let q2 = q.push(e);
    lemma_offset_unit(k);
    lemma_index_bounds(lat, np);
    lemma_index_bounds(lat, cp);
    lemma_index_bounds(lat, tp);
    if ni == lat.index(cp) {
        lemma_index_injective(lat, np, cp);
    }
    lemma_total_update(costs, ni, cand);
    lemma_walk_push(lat, tp, paths[lat.index(cp)], k);
    assert forall|p: Point|
        #![trigger lat.index(p)]
        lat.in_bounds(p) && c2[lat.index(p)] != UNREACHABLE implies {
        &&& walk_ok(lat, tp, p2[lat.index(p)])
        &&& walk_end(tp, p2[lat.index(p)]) == p
        &&& walk_weight(p2[lat.index(p)]) == c2[lat.index(p)]
    } by {
        lemma_index_bounds(lat, p);
        if lat.index(p) == ni {
            lemma_index_injective(lat, p, np);
        }
    }
    assert forall|p: Point|
        #![trigger lat.index(p)]
        lat.in_bounds(p) && c2[lat.index(p)] != UNREACHABLE && !queued(q2, p) && p
            != cp implies relaxed_upto(lat, c2, p, 26) by {
        lemma_queued_push(q, e, p);
        lemma_index_bounds(lat, p);
        lemma_lower_keeps_relaxed(lat, costs, ni, cand, p, 26);
    }
    lemma_lower_keeps_relaxed(lat, costs, ni, cand, cp, k);
    assert forall|kk: int|
        #![trigger shift(cp, kk)]
        0 <= kk < k + 1 && lat.is_free(shift(cp, kk)) && c2[lat.index(cp)] + step_weight(kk)
            < UNREACHABLE implies c2[lat.index(shift(cp, kk))] <= c2[lat.index(cp)] + step_weight(
        kk,
    ) by {
        if kk < k {
            assert(relaxed_upto(lat, c2, cp, k));
        }
    }
}

/// Moves one step along an axis, if the result stays in `0 .. limit`.
fn step_coord(v: usize, dv: i32, limit: usize) -> (r: Option<usize>)
    requires
        v < limit,
        -1 <= dv <= 1,
    ensures
        r.is_some() == (0 <= v + dv < limit),
        r.is_some() ==> r.unwrap() == v + dv,
{
    if dv < 0 {
        if v == 0 {
            None
        } else {
            Some(v - 1)
        }
    } else if dv > 0 {
        if v + 1 < limit {
            Some(v + 1)
        } else {
            None
        }
    } else {
        Some(v)
    }
}

/// Least costs from `t` over the box `w * h * d` whose obstacle flags are
/// `tiles`, by relaxation from a first-in first-out worklist: a cell whose
/// cost drops goes back on the list, however often that happens.
pub fn propagate(w: usize, h: usize, d: usize, tiles: &Vec<Tile>, t: (usize, usize, usize)) -> (costs:
    Vec<i32>)
    requires
        tiles@.len() == w * h * d,
        lattice_of(w, h, d, tiles@).is_free(point_of(t)),
    ensures
        least_costs(lattice_of(w, h, d, tiles@), point_of(t), costs@),
        costs@[lattice_of(w, h, d, tiles@).index(point_of(t))] == 0,
        forall|i: int| 0 <= i < costs@.len() ==> costs@[i] >= 0,
{
    let ghost lat = lattice_of(w, h, d, tiles@);
    let ghost tp = point_of(t);
    proof {
        lemma_index_bounds(lat, tp);
    }
    let n: usize = tiles.len();
    let wh: usize = w * h;
    let mut costs: Vec<i32> = Vec::new();
    while costs.len() < n
        invariant
            costs@.len() <= n,
            forall|i: int| 0 <= i < costs@.len() ==> costs@[i] == UNREACHABLE,
        decreases n - costs@.len(),
    {
        costs.push(UNREACHABLE);
    }
    let ti: usize = t.2 * wh + t.1 * w + t.0;
    costs.set(ti, 0);
    let ghost mut paths: Seq<Seq<int>> = Seq::new(n as nat, |i: int| Seq::<int>::empty());
    let mut queue: VecDeque<(usize, usize, usize)> = VecDeque::new();
    queue.push_back(t);
    proof {
        assert forall|p: Point|
            #![trigger lat.index(p)]
            lat.in_bounds(p) && costs@[lat.index(p)] != UNREACHABLE implies {
            &&& walk_ok(lat, tp, paths[lat.index(p)])
            &&& walk_end(tp, paths[lat.index(p)]) == p
            &&& walk_weight(paths[lat.index(p)]) == costs@[lat.index(p)]
        } by {
            lemma_index_bounds(lat, p);
            if lat.index(p) == ti {
                lemma_index_injective(lat, p, tp);
            }
        }
        assert forall|p: Point|
            #![trigger lat.index(p)]
            lat.in_bounds(p) && costs@[lat.index(p)] != UNREACHABLE && !queued(
                queue@,
                p,
            ) implies relaxed_upto(lat, costs@, p, 26) by {
            lemma_index_bounds(lat, p);
            if lat.index(p) == ti {
                lemma_index_injective(lat, p, tp);
                assert(queue@[0] == t);
            }
        }
    }
    while queue.len() > 0
        invariant
            lat == lattice_of(w, h, d, tiles@),
            lat.wf(),
            tp == point_of(t),
            lat.is_free(tp),
            n == tiles@.len(),
            wh == w * h,
            costs@.len() == n,
            paths.len() == n,
            costs@[lat.index(tp)] == 0,
            forall|i: int| 0 <= i < n ==> costs@[i] >= 0,
            forall|i: int| 0 <= i < queue@.len() ==> lat.in_bounds(point_of(#[trigger] queue@[i])),
            witnessed(lat, tp, costs@, paths),
            forall|p: Point|
                #![trigger lat.index(p)]
                lat.in_bounds(p) && costs@[lat.index(p)] != UNREACHABLE && !queued(queue@, p)
                    ==> relaxed_upto(lat, costs@, p, 26),
        decreases total(costs@), queue@.len(),
    {
        let ghost q0 = queue@;
        let c = queue.pop_front().unwrap();
        let ghost cp = point_of(c);
        proof {
            lemma_index_bounds(lat, cp);
            lemma_total_nonneg(costs@);
            assert forall|p: Point|
                #![trigger lat.index(p)]
                lat.in_bounds(p) && costs@[lat.index(p)] != UNREACHABLE && !queued(queue@, p) && p
                    != cp implies relaxed_upto(lat, costs@, p, 26) by {
                lemma_queued_pop(q0, p);
            }
        }
        let (x, y, z) = c;
        let ci: usize = z * wh + y * w + x;
        let cur = costs[ci];
        let ghost total0 = total(costs@);
        let ghost len0 = queue@.len();
        let mut k: usize = 0;
        while k < NEIGHBOURS
            invariant
                lat == lattice_of(w, h, d, tiles@),
                lat.wf(),
                tp == point_of(t),
                lat.is_free(tp),
                n == tiles@.len(),
                wh == w * h,
                costs@.len() == n,
                paths.len() == n,
                costs@[lat.index(tp)] == 0,
                forall|i: int| 0 <= i < n ==> costs@[i] >= 0,
                forall|i: int|
                    0 <= i < queue@.len() ==> lat.in_bounds(point_of(#[trigger] queue@[i])),
                witnessed(lat, tp, costs@, paths),
                cp == point_of(c),
                c == (x, y, z),
                lat.in_bounds(cp),
                ci == lat.index(cp),
                costs@[ci as int] == cur,
                k <= NEIGHBOURS,
                settled_except(lat, costs@, queue@, cp),
                relaxed_upto(lat, costs@, cp, k as int),
                total(costs@) <= total0,
                total(costs@) < total0 || queue@.len() == len0,
            decreases NEIGHBOURS - k,
        {
            let (dx, dy, dz) = offset_at(k);
            let wk = weight_at(k);
            let ghost np = shift(cp, k as int);
            proof {
                lemma_offset_unit(k as int);
            }
            let sx = step_coord(x, dx, w);
            let sy = step_coord(y, dy, h);
            let sz = step_coord(z, dz, d);
            if sx.is_some() && sy.is_some() && sz.is_some() {
                let nx = sx.unwrap();
                let ny = sy.unwrap();
                let nz = sz.unwrap();
                proof {
                    lemma_index_bounds(lat, np);
                }
                let ni: usize = nz * wh + ny * w + nx;
                if !tiles[ni].is_obstacle && cur < UNREACHABLE - wk && cur + wk < costs[ni] {
                    let ghost c0 = costs@;
                    let ghost p0 = paths;
                    let ghost q1 = queue@;
                    costs.set(ni, cur + wk);
                    queue.push_back((nx, ny, nz));
                    proof {
                        lemma_step_lowered(lat, tp, c0, p0, q1, cp, k as int, (nx, ny, nz));
                        paths = paths.update(ni as int, paths[ci as int].push(k as int));
                        assert(costs@ =~= c0.update(ni as int, (cur + wk) as i32));
                        assert forall|i: int|
                            0 <= i < queue@.len() implies lat.in_bounds(
                            point_of(#[trigger] queue@[i]),
                        ) by {
                            if i < q1.len() {
                                assert(queue@[i] == q1[i]);
                            }
                        }
                    }
                } else {
                    proof {
                        lemma_step_kept(lat, costs@, cp, k as int);
                    }
                }
            } else {
                proof {
                    lemma_step_kept(lat, costs@, cp, k as int);
                }
            }
            k = k + 1;
        }
        proof {
            lemma_total_nonneg(costs@);
            assert forall|p: Point|
                #![trigger lat.index(p)]
                lat.in_bounds(p) && costs@[lat.index(p)] != UNREACHABLE && !queued(queue@, p)
                    implies relaxed_upto(lat, costs@, p, 26) by {
                if p == cp {
                    assert(relaxed_upto(lat, costs@, cp, NEIGHBOURS as int));
                }
            }
        }
    }
    proof {
        assert forall|p: Point|
            #![trigger lat.index(p)]
            lat.in_bounds(p) && costs@[lat.index(p)] != UNREACHABLE implies reached_by(
            lat,
            tp,
            p,
            costs@[lat.index(p)] as int,
        ) by {
            let ks = paths[lat.index(p)];
            assert(walk_end(tp, ks) == p);
        }
        assert forall|p: Point|
            #![trigger lat.index(p)]
            lat.in_bounds(p) && costs@[lat.index(p)] != UNREACHABLE implies relaxed_upto(
            lat,
            costs@,
            p,
            26,
        ) by {
            assert(!queued(queue@, p));
        }
        assert forall|ks: Seq<int>|
            #![trigger walk_ok(lat, tp, ks)]
            walk_ok(lat, tp, ks) && walk_weight(ks) < UNREACHABLE implies costs@[lat.index(
                walk_end(tp, ks),
            )] <= walk_weight(ks) by {
            lemma_walks_bounded(lat, tp, costs@, ks);
        }
    }
    costs
}

/// `k` is the step that `p` takes over `costs`: the first offset, in the
/// fixed order, among the in-box neighbours of least cost, when that cost is
/// below `p`'s own; `NO_STEP` when no in-box neighbour is cheaper than `p`.
pub open spec fn is_steepest(lat: Lattice, costs: Seq<i32>, p: Point, k: int) -> bool {
    if k == NO_STEP {
        forall|j: int|
            #![trigger shift(p, j)]
            0 <= j < 26 && lat.in_bounds(shift(p, j)) ==> costs[lat.index(shift(p, j))]
                >= costs[lat.index(p)]
    } else {
        &&& 0 <= k < 26
        &&& lat.in_bounds(shift(p, k))
        &&& costs[lat.index(shift(p, k))] < costs[lat.index(p)]
        &&& forall|j: int|
            #![trigger shift(p, j)]
            0 <= j < 26 && lat.in_bounds(shift(p, j)) ==> costs[lat.index(shift(p, j))]
                >= costs[lat.index(shift(p, k))]
        &&& forall|j: int|
            #![trigger shift(p, j)]
            0 <= j < k && lat.in_bounds(shift(p, j)) ==> costs[lat.index(shift(p, j))]
                != costs[lat.index(shift(p, k))]
    }
}

/// The step recorded for `p`: none on an obstacle or an unreachable cell,
/// else the steepest one.
pub open spec fn step_of(lat: Lattice, costs: Seq<i32>, p: Point, k: int) -> bool {
    if lat.is_free(p) && costs[lat.index(p)] != UNREACHABLE {
        is_steepest(lat, costs, p, k)
    } else {
        k == NO_STEP
    }
}

/// The steepest step from `(x, y, z)`.
fn steepest_step(
    w: usize,
    h: usize,
    d: usize,
    costs: &Vec<i32>,
    c: (usize, usize, usize),
    Ghost(lat): Ghost<Lattice>,
) -> (r: usize)
    requires
        lat.wf(),
        lat.w == w,
        lat.h == h,
        lat.d == d,
        costs@.len() == w * h * d,
        lat.in_bounds(point_of(c)),
    ensures
        is_steepest(lat, costs@, point_of(c), r as int),
{
    let ghost cp = point_of(c);
    let (x, y, z) = c;
    proof {
        lemma_index_bounds(lat, cp);
    }
    let _n = costs.len();
    let wh: usize = w * h;
    let ci: usize = z * wh + y * w + x;
    let own = costs[ci];
    let mut best: i32 = own;
    let mut best_k: usize = NO_STEP;
    let mut k: usize = 0;
    while k < NEIGHBOURS
        invariant
            costs@.len() == w * h * d,
            costs@.len() <= usize::MAX,
            wh == w * h,
            lat.wf(),
            lat.w == w,
            lat.h == h,
            lat.d == d,
            lat.in_bounds(cp),
            cp == point_of(c),
            c == (x, y, z),
            ci == lat.index(cp),
            own == costs@[ci as int],
            k <= NEIGHBOURS,
            best <= own,
            best_k == NO_STEP ==> best == own,
            best_k != NO_STEP ==> {
                &&& best_k < k
                &&& lat.in_bounds(shift(cp, best_k as int))
                &&& costs@[lat.index(shift(cp, best_k as int))] == best
                &&& best < own
                &&& forall|j: int|
                    #![trigger shift(cp, j)]
                    0 <= j < best_k && lat.in_bounds(shift(cp, j)) ==> costs@[lat.index(
                        shift(cp, j),
                    )] > best
            },
            forall|j: int|
                #![trigger shift(cp, j)]
                0 <= j < k && lat.in_bounds(shift(cp, j)) ==> costs@[lat.index(shift(cp, j))]
                    >= best,
        decreases NEIGHBOURS - k,
    {
        let (dx, dy, dz) = offset_at(k);
        proof {
            lemma_offset_unit(k as int);
        }
        let sx = step_coord(x, dx, w);
        let sy = step_coord(y, dy, h);
        let sz = step_coord(z, dz, d);
        if sx.is_some() && sy.is_some() && sz.is_some() {
            let nx = sx.unwrap();
            let ny = sy.unwrap();
            let nz = sz.unwrap();
            proof {
                lemma_index_bounds(lat, shift(cp, k as int));
            }
            let ni: usize = nz * wh + ny * w + nx;
            if costs[ni] < best {
                best = costs[ni];
                best_k = k;
            }
        }
        k = k + 1;
    }
    best_k
}

/// The step of every cell, in storage order.
pub fn derive_steps(w: usize, h: usize, d: usize, tiles: &Vec<Tile>, costs: &Vec<i32>) -> (steps:
    Vec<usize>)
    requires
        tiles@.len() == w * h * d,
        costs@.len() == w * h * d,
    ensures
        steps@.len() == costs@.len(),
        forall|p: Point|
            #![trigger lattice_of(w, h, d, tiles@).index(p)]
            lattice_of(w, h, d, tiles@).in_bounds(p) ==> step_of(
                lattice_of(w, h, d, tiles@),
                costs@,
                p,
                steps@[lattice_of(w, h, d, tiles@).index(p)] as int,
            ),
{
    let ghost lat = lattice_of(w, h, d, tiles@);
    let n: usize = tiles.len();
    let mut steps: Vec<usize> = Vec::new();
    let mut i: usize = 0;
    let mut x: usize = 0;
    let mut y: usize = 0;
    let mut z: usize = 0;
    proof {
        if n > 0 {
            let (a, b, c) = (w as int, h as int, d as int);
            assert(a > 0 && b > 0 && c > 0) by (nonlinear_arith)
                requires
                    a * b * c > 0,
                    a >= 0,
                    b >= 0,
                    c >= 0,
            ;
        }
        assert(0 * ((w as int) * (h as int)) + 0 * (w as int) + 0 == 0) by (nonlinear_arith);
    }
    while i < n
        invariant
            lat == lattice_of(w, h, d, tiles@),
            lat.wf(),
            n == tiles@.len(),
            costs@.len() == n,
            steps@.len() == i,
            i <= n,
            i == lat.index((x as int, y as int, z as int)),
            x < w || n == 0,
            y < h || n == 0,
            i < n ==> lat.in_bounds((x as int, y as int, z as int)),
            forall|p: Point|
                #![trigger lat.index(p)]
                lat.in_bounds(p) && lat.index(p) < i ==> step_of(
                    lat,
                    costs@,
                    p,
                    steps@[lat.index(p)] as int,
                ),
        decreases n - i,
    {
        let ghost cp: Point = (x as int, y as int, z as int);
        proof {
            lemma_index_bounds(lat, cp);
        }
        let k = if tiles[i].is_obstacle || costs[i] == UNREACHABLE {
            NO_STEP
        } else {
            steepest_step(w, h, d, costs, (x, y, z), Ghost(lat))
        };
        steps.push(k);
        proof {
            assert(step_of(lat, costs@, cp, k as int));
            assert forall|p: Point|
                #![trigger lat.index(p)]
                lat.in_bounds(p) && lat.index(p) < i + 1 implies step_of(
                lat,
                costs@,
                p,
                steps@[lat.index(p)] as int,
            ) by {
                if lat.index(p) == i {
                    lemma_index_injective(lat, p, cp);
                }
            }
        }
        let ghost (w0, h0, x0, y0, z0) = (w as int, h as int, x as int, y as int, z as int);
        if x + 1 < w {
            x = x + 1;
        } else if y + 1 < h {
            assert(z0 * (w0 * h0) + (y0 + 1) * w0 + 0 == z0 * (w0 * h0) + y0 * w0 + x0 + 1)
                by (nonlinear_arith)
                requires
                    x0 == w0 - 1,
            ;
            x = 0;
            y = y + 1;
        } else {
            assert((z0 + 1) * (w0 * h0) + 0 * w0 + 0 == z0 * (w0 * h0) + y0 * w0 + x0 + 1)
                by (nonlinear_arith)
                requires
                    x0 == w0 - 1,
                    y0 == h0 - 1,
            ;
            x = 0;
            y = 0;
            z = z + 1;
        }
        i = i + 1;
        proof {
            if i < n && n > 0 {
                let (xx, yy, zz) = (x as int, y as int, z as int);
                assert(0 <= zz < d) by {
                    if zz >= d {
                        assert(zz * (w0 * h0) >= d * (w0 * h0)) by (nonlinear_arith)
                            requires
                                zz >= d,
                                w0 * h0 >= 0,
                        ;
                        assert(d * (w0 * h0) == w0 * h0 * d) by (nonlinear_arith);
                        assert(yy * w0 >= 0) by (nonlinear_arith)
                            requires
                                yy >= 0,
                                w0 >= 0,
                        ;
                    }
                }
            }
        }
    }
    proof {
        assert forall|p: Point|
            #![trigger lat.index(p)]
            lat.in_bounds(p) implies step_of(lat, costs@, p, steps@[lat.index(p)] as int) by {
            lemma_index_bounds(lat, p);
        }
    }
    steps
}

/// `costs` and `steps` form the flow field toward `t` over `lat`: least
/// costs, and in every cell the steepest step, or none on an obstacle or an
/// unreachable cell.
pub open spec fn is_flow(lat: Lattice, t: Point, costs: Seq<i32>, steps: Seq<usize>) -> bool {
    &&& least_costs(lat, t, costs)
    &&& forall|i: int| 0 <= i < costs.len() ==> costs[i] >= 0
    &&& steps.len() == costs.len()
    &&& forall|p: Point|
        #![trigger lat.index(p)]
        lat.in_bounds(p) ==> step_of(lat, costs, p, steps[lat.index(p)] as int)
}

/// The target costs nothing and takes no step.
pub proof fn lemma_target_rests(lat: Lattice, t: Point, costs: Seq<i32>, steps: Seq<usize>)
    requires
        lat.wf(),
        lat.is_free(t),
        is_flow(lat, t, costs, steps),
    ensures
        costs[lat.index(t)] == 0,
        direction_of(steps[lat.index(t)] as int) == (0int, 0int, 0int),
{
    lemma_index_bounds(lat, t);
    assert(walk_ok(lat, t, Seq::<int>::empty()));
    assert(walk_end(t, Seq::<int>::empty()) == t);
    let k = steps[lat.index(t)] as int;
    assert(step_of(lat, costs, t, k));
    if k != NO_STEP {
        lemma_index_bounds(lat, shift(t, k));
    }
}

/// Every walk through free cells weighs at least nothing.
proof fn lemma_walk_weight_nonneg(ks: Seq<int>)
    ensures
        walk_weight(ks) >= 0,
    decreases ks.len(),
{
    if ks.len() > 0 {
        lemma_walk_weight_nonneg(ks.drop_last());
    }
}

/// A free cell other than the target with a finite cost steps to an in-box
/// neighbour of strictly lower cost.
pub proof fn lemma_descent(lat: Lattice, t: Point, costs: Seq<i32>, steps: Seq<usize>, p: Point)
    requires
        lat.wf(),
        lat.is_free(t),
        is_flow(lat, t, costs, steps),
        lat.is_free(p),
        p != t,
        costs[lat.index(p)] != UNREACHABLE,
    ensures
        0 <= steps[lat.index(p)] < 26,
        lat.in_bounds(shift(p, steps[lat.index(p)] as int)),
        costs[lat.index(shift(p, steps[lat.index(p)] as int))] < costs[lat.index(p)],
{
    lemma_index_bounds(lat, p);
    assert(reached_by(lat, t, p, costs[lat.index(p)] as int));
    let ks = choose|ks: Seq<int>|
        #![trigger walk_end(t, ks)]
        walk_ok(lat, t, ks) && walk_end(t, ks) == p && walk_weight(ks) == costs[lat.index(p)];
    assert(ks.len() > 0);
    let pre = ks.drop_last();
    let k = ks.last();
    let q = walk_end(t, pre);
    lemma_walk_end_free(lat, t, pre);
    lemma_index_bounds(lat, q);
    lemma_walk_weight_nonneg(pre);
    assert(walk_ok(lat, t, pre));
    assert(costs[lat.index(q)] <= walk_weight(pre));
    lemma_opposite(k);
    assert(shift(shift(q, k), opposite(k)) == q);
    assert(shift(p, opposite(k)) == q);
    let s = steps[lat.index(p)] as int;
    assert(step_of(lat, costs, p, s));
    if s == NO_STEP {
        assert(costs[lat.index(shift(p, opposite(k)))] >= costs[lat.index(p)]);
    }
}

/// At most one step meets the steepest-step rule.
proof fn lemma_steepest_unique(lat: Lattice, costs: Seq<i32>, p: Point, a: int, b: int)
    requires
        is_steepest(lat, costs, p, a),
        is_steepest(lat, costs, p, b),
    ensures
        a == b,
{
    if a != NO_STEP && b != NO_STEP {
        if a < b {
            assert(costs[lat.index(shift(p, a))] >= costs[lat.index(shift(p, b))]);
            assert(costs[lat.index(shift(p, b))] >= costs[lat.index(shift(p, a))]);
        } else if b < a {
            assert(costs[lat.index(shift(p, a))] >= costs[lat.index(shift(p, b))]);
            assert(costs[lat.index(shift(p, b))] >= costs[lat.index(shift(p, a))]);
        }
    } else if a != NO_STEP {
        assert(costs[lat.index(shift(p, a))] >= costs[lat.index(p)]);
    } else if b != NO_STEP {
        assert(costs[lat.index(shift(p, b))] >= costs[lat.index(p)]);
    }
}

/// A flow field is determined by its box and its target: two of them agree
/// in every cost and every step.
pub proof fn lemma_flow_unique(
    lat: Lattice,
    t: Point,
    c1: Seq<i32>,
    s1: Seq<usize>,
    c2: Seq<i32>,
    s2: Seq<usize>,
)
    requires
        lat.wf(),
        is_flow(lat, t, c1, s1),
        is_flow(lat, t, c2, s2),
    ensures
        c1 == c2,
        s1 == s2,
{
    assert forall|i: int| 0 <= i < c1.len() implies c1[i] == c2[i] by {
        let p = lemma_index_onto(lat, i);
        lemma_costs_agree(lat, t, c1, c2, p);
        lemma_costs_agree(lat, t, c2, c1, p);
    }
    assert(c1 =~= c2);
    assert forall|i: int| 0 <= i < s1.len() implies s1[i] == s2[i] by {
        let p = lemma_index_onto(lat, i);
        assert(step_of(lat, c1, p, s1[i] as int));
        assert(step_of(lat, c2, p, s2[i] as int));
        if lat.is_free(p) && c1[i] != UNREACHABLE {
            lemma_steepest_unique(lat, c1, p, s1[i] as int, s2[i] as int);
        }
    }
    assert(c1 =~= c2);
    assert(s1 =~= s2);
}

/// A finite cost in one field of least costs bounds the cost in another.
proof fn lemma_costs_agree(lat: Lattice, t: Point, c1: Seq<i32>, c2: Seq<i32>, p: Point)
    requires
        lat.wf(),
        least_costs(lat, t, c1),
        least_costs(lat, t, c2),
        lat.in_bounds(p),
    ensures
        c1[lat.index(p)] != UNREACHABLE ==> c2[lat.index(p)] <= c1[lat.index(p)],
{
    if c1[lat.index(p)] != UNREACHABLE {
        assert(reached_by(lat, t, p, c1[lat.index(p)] as int));
        let ks = choose|ks: Seq<int>|
            #![trigger walk_end(t, ks)]
            walk_ok(lat, t, ks) && walk_end(t, ks) == p && walk_weight(ks) == c1[lat.index(p)];
        assert(walk_ok(lat, t, ks));
    }
}

} // verus!
