//! The mathematical model shared by the planar and the volumetric variants: a
//! box of cells with an obstacle mask, the 26 neighbour offsets in their fixed
//! order, their step weights, and walks through free cells.
//!
//! A planar grid is the same model with a depth of one: every offset that
//! changes the third axis then leaves the box, and the remaining eight keep
//! their relative order.
use vstd::prelude::*;

verus! {

/// A cell as integer coordinates `(x, y, z)`.
pub type Point = (int, int, int);

/// The number of neighbour offsets.
pub const NEIGHBOURS: usize = 26;

/// Index standing for "no step": the zero vector.
pub const NO_STEP: usize = 26;

/// The cost of a cell that cannot be reached.
pub const UNREACHABLE: i32 = i32::MAX;

/// Where `p` is stored in a box `w` cells wide and `h` cells high.
pub open spec fn flat_index(w: int, h: int, p: Point) -> int {
    p.2 * (w * h) + p.1 * w + p.0
}

/// A box of `w * h * d` cells, stored in x-fastest order, with one obstacle
/// flag per cell.
pub struct Lattice {
    pub w: int,
    pub h: int,
    pub d: int,
    pub blocked: Seq<bool>,
}

impl Lattice {
    pub open spec fn wf(self) -> bool {
        &&& self.w >= 0
        &&& self.h >= 0
        &&& self.d >= 0
        &&& self.blocked.len() == self.w * self.h * self.d
    }

    pub open spec fn in_bounds(self, p: Point) -> bool {
        &&& 0 <= p.0 < self.w
        &&& 0 <= p.1 < self.h
        &&& 0 <= p.2 < self.d
    }

    pub open spec fn index(self, p: Point) -> int {
        flat_index(self.w, self.h, p)
    }

    /// In bounds and not an obstacle.
    pub open spec fn is_free(self, p: Point) -> bool {
        self.in_bounds(p) && !self.blocked[self.index(p)]
    }

    /// Anything outside the box counts as an obstacle.
    pub open spec fn is_wall(self, p: Point) -> bool {
        !self.in_bounds(p) || self.blocked[self.index(p)]
    }
}

/// The neighbour offsets in their fixed order: the six faces, then the twelve
/// edges, then the eight corners.
pub open spec fn offset(k: int) -> (int, int, int) {
    if k == 0 { (1, 0, 0) }
    else if k == 1 { (-1, 0, 0) }
    else if k == 2 { (0, 1, 0) }
    else if k == 3 { (0, -1, 0) }
    else if k == 4 { (0, 0, 1) }
    else if k == 5 { (0, 0, -1) }
    else if k == 6 { (1, 1, 0) }
    else if k == 7 { (1, -1, 0) }
    else if k == 8 { (-1, 1, 0) }
    else if k == 9 { (-1, -1, 0) }
    else if k == 10 { (1, 0, 1) }
    else if k == 11 { (1, 0, -1) }
    else if k == 12 { (-1, 0, 1) }
    else if k == 13 { (-1, 0, -1) }
    else if k == 14 { (0, 1, 1) }
    else if k == 15 { (0, 1, -1) }
    else if k == 16 { (0, -1, 1) }
    else if k == 17 { (0, -1, -1) }
    else if k == 18 { (1, 1, 1) }
    else if k == 19 { (1, 1, -1) }
    else if k == 20 { (1, -1, 1) }
    else if k == 21 { (-1, 1, 1) }
    else if k == 22 { (-1, -1, 1) }
    else if k == 23 { (1, -1, -1) }
    else if k == 24 { (-1, 1, -1) }
    else if k == 25 { (-1, -1, -1) }
    else { (0, 0, 0) }
}

/// The number of axes that an offset changes.
pub open spec fn axes_changed(o: (int, int, int)) -> int {
    (if o.0 != 0 { 1int } else { 0int }) + (if o.1 != 0 { 1int } else { 0int }) + (if o.2
        != 0 {
        1int
    } else {
        0int
    })
}

/// Ten times the length of a step, rounded: 10 along an axis, 14 across a
/// face diagonal, 17 across a corner.
pub open spec fn step_weight(k: int) -> int {
    let n = axes_changed(offset(k));
    if n == 1 { 10 } else if n == 2 { 14 } else { 17 }
}

/// The vector of step `k`; `NO_STEP` and any other index is the zero vector.
pub open spec fn direction_of(k: int) -> (int, int, int) {
    if 0 <= k < 26 {
        offset(k)
    } else {
        (0, 0, 0)
    }
}

pub open spec fn shift(p: Point, k: int) -> Point {
    (p.0 + offset(k).0, p.1 + offset(k).1, p.2 + offset(k).2)
}

/// Where the offsets `ks`, taken in turn from `start`, lead.
pub open spec fn walk_end(start: Point, ks: Seq<int>) -> Point
    decreases ks.len(),
{
    if ks.len() == 0 {
        start
    } else {
        shift(walk_end(start, ks.drop_last()), ks.last())
    }
}

/// Every cell visited, `start` included, is free, and each offset is one of
/// the 26.
pub open spec fn walk_ok(lat: Lattice, start: Point, ks: Seq<int>) -> bool
    decreases ks.len(),
{
    if ks.len() == 0 {
        lat.is_free(start)
    } else {
        &&& walk_ok(lat, start, ks.drop_last())
        &&& 0 <= ks.last() < 26
        &&& lat.is_free(walk_end(start, ks))
    }
}

pub open spec fn walk_weight(ks: Seq<int>) -> int
    decreases ks.len(),
{
    if ks.len() == 0 {
        0
    } else {
        walk_weight(ks.drop_last()) + step_weight(ks.last())
    }
}

/// The offset that undoes offset `k`.
pub open spec fn opposite(k: int) -> int {
    if k == 0 {
        1
    } else if k == 1 {
        0
    } else if k == 2 {
        3
    } else if k == 3 {
        2
    } else if k == 4 {
        5
    } else if k == 5 {
        4
    } else if k == 6 {
        9
    } else if k == 7 {
        8
    } else if k == 8 {
        7
    } else if k == 9 {
        6
    } else if k == 10 {
        13
    } else if k == 11 {
        12
    } else if k == 12 {
        11
    } else if k == 13 {
        10
    } else if k == 14 {
        17
    } else if k == 15 {
        16
    } else if k == 16 {
        15
    } else if k == 17 {
        14
    } else if k == 18 {
        25
    } else if k == 19 {
        22
    } else if k == 20 {
        24
    } else if k == 21 {
        23
    } else if k == 22 {
        19
    } else if k == 23 {
        21
    } else if k == 24 {
        20
    } else if k == 25 {
        18
    } else {
        k
    }
}

pub proof fn lemma_opposite(k: int)
    requires
        0 <= k < 26,
    ensures
        0 <= opposite(k) < 26,
        offset(opposite(k)) == (-offset(k).0, -offset(k).1, -offset(k).2),
        forall|p: Point| #[trigger] shift(shift(p, k), opposite(k)) == p,
{
}

/// The offset table as machine integers.
pub fn offset_at(k: usize) -> (r: (i32, i32, i32))
    requires
        k < NEIGHBOURS,
    ensures
        r.0 as int == offset(k as int).0,
        r.1 as int == offset(k as int).1,
        r.2 as int == offset(k as int).2,
{
    match k {
        0 => (1, 0, 0),
        1 => (-1, 0, 0),
        2 => (0, 1, 0),
        3 => (0, -1, 0),
        4 => (0, 0, 1),
        5 => (0, 0, -1),
        6 => (1, 1, 0),
        7 => (1, -1, 0),
        8 => (-1, 1, 0),
        9 => (-1, -1, 0),
        10 => (1, 0, 1),
        11 => (1, 0, -1),
        12 => (-1, 0, 1),
        13 => (-1, 0, -1),
        14 => (0, 1, 1),
        15 => (0, 1, -1),
        16 => (0, -1, 1),
        17 => (0, -1, -1),
        18 => (1, 1, 1),
        19 => (1, 1, -1),
        20 => (1, -1, 1),
        21 => (-1, 1, 1),
        22 => (-1, -1, 1),
        23 => (1, -1, -1),
        24 => (-1, 1, -1),
        _ => (-1, -1, -1),
    }
}

/// The vector of step `k` as machine integers.
pub fn direction_at(k: usize) -> (r: (i32, i32, i32))
    ensures
        r.0 as int == direction_of(k as int).0,
        r.1 as int == direction_of(k as int).1,
        r.2 as int == direction_of(k as int).2,
{
    if k < NEIGHBOURS {
        offset_at(k)
    } else {
        (0, 0, 0)
    }
}

/// The step weights as machine integers.
pub fn weight_at(k: usize) -> (r: i32)
    requires
        k < NEIGHBOURS,
    ensures
        r as int == step_weight(k as int),
{
    if k < 6 {
        10
    } else if k < 18 {
        14
    } else {
        17
    }
}

/// Distinct in-bounds cells have distinct indices, and every index lies in
/// `0 .. w * h * d`.
pub proof fn lemma_index_bounds(lat: Lattice, p: Point)
    requires
        lat.wf(),
        lat.in_bounds(p),
    ensures
        0 <= lat.index(p) < lat.w * lat.h * lat.d,
        lat.index(p) < lat.blocked.len(),
        lat.w * lat.h <= lat.w * lat.h * lat.d,
{
    let (w, h, d) = (lat.w, lat.h, lat.d);
    let (x, y, z) = p;
    assert(0 <= y * w + x < w * h) by (nonlinear_arith)
        requires
            0 <= x < w,
            0 <= y < h,
    ;
    assert(0 <= z * (w * h) + y * w + x < w * h * d) by (nonlinear_arith)
        requires
            0 <= y * w + x < w * h,
            0 <= z < d,
    ;
    assert(w * h <= w * h * d) by (nonlinear_arith)
        requires
            0 <= z < d,
            w >= 0,
            h >= 0,
    ;
}

/// Every storage slot holds some in-bounds cell.
pub proof fn lemma_index_onto(lat: Lattice, i: int) -> (p: Point)
    requires
        lat.wf(),
        0 <= i < lat.w * lat.h * lat.d,
    ensures
        lat.in_bounds(p),
        lat.index(p) == i,
{
    let (w, h, d) = (lat.w, lat.h, lat.d);
    assert(w > 0 && h > 0 && d > 0) by (nonlinear_arith)
        requires
            0 <= i < w * h * d,
            w >= 0,
            h >= 0,
            d >= 0,
    ;
    let q = i / w;
    let x = i % w;
    let y = q % h;
    let z = q / h;
    vstd::arithmetic::div_mod::lemma_fundamental_div_mod(i, w);
    vstd::arithmetic::div_mod::lemma_fundamental_div_mod(q, h);
    vstd::arithmetic::div_mod::lemma_mod_bound(i, w);
    vstd::arithmetic::div_mod::lemma_mod_bound(q, h);
    vstd::arithmetic::div_mod::lemma_div_pos_is_pos(i, w);
    vstd::arithmetic::div_mod::lemma_div_pos_is_pos(q, h);
    assert(i == z * (w * h) + y * w + x) by (nonlinear_arith)
        requires
            i == w * q + x,
            q == h * z + y,
    ;
    assert(0 <= y * w + x) by (nonlinear_arith)
        requires
            0 <= y,
            0 <= x,
            0 < w,
    ;
    assert(z < d) by (nonlinear_arith)
        requires
            i == z * (w * h) + y * w + x,
            0 <= y * w + x,
            i < w * h * d,
            w > 0,
            h > 0,
    ;
    (x, y, z)
}

pub proof fn lemma_index_injective(lat: Lattice, p: Point, q: Point)
    requires
        lat.wf(),
        lat.in_bounds(p),
        lat.in_bounds(q),
        lat.index(p) == lat.index(q),
    ensures
        p == q,
{
    let (w, h) = (lat.w, lat.h);
    let (a, b) = (p.1 * w + p.0, q.1 * w + q.0);
    assert(0 <= a < w * h && 0 <= b < w * h) by (nonlinear_arith)
        requires
            0 <= p.0 < w,
            0 <= p.1 < h,
            0 <= q.0 < w,
            0 <= q.1 < h,
            a == p.1 * w + p.0,
            b == q.1 * w + q.0,
    ;
    assert(p.2 == q.2) by (nonlinear_arith)
        requires
            p.2 * (w * h) + a == q.2 * (w * h) + b,
            0 <= a < w * h,
            0 <= b < w * h,
    ;
    assert(p.1 == q.1) by (nonlinear_arith)
        requires
            p.1 * w + p.0 == q.1 * w + q.0,
            0 <= p.0 < w,
            0 <= q.0 < w,
    ;
}

} // verus!
