//! Dense obstacle masks over a rectangle or a cuboid. Coordinates outside the
//! extent read as obstacles.
use vstd::prelude::*;
use crate::lattice::{Lattice, Point};

verus! {

pub struct Tile {
    pub is_obstacle: bool,
}

impl Tile {
    pub fn new() -> (r: Self)
        ensures
            !r.is_obstacle,
    {
        Tile { is_obstacle: false }
    }
}

pub open spec fn mask_of(tiles: Seq<Tile>) -> Seq<bool> {
    tiles.map_values(|t: Tile| t.is_obstacle)
}

/// Whether `p` lies in the box with corner `(x, y, z)` and extent `(w, h, d)`.
pub open spec fn in_region(p: Point, x: int, y: int, z: int, w: int, h: int, d: int) -> bool {
    &&& x <= p.0 < x + w
    &&& y <= p.1 < y + h
    &&& z <= p.2 < z + d
}

/// A `width * height` mask; the tiles are stored row by row.
pub struct Grid2D {
    pub width: usize,
    pub height: usize,
    pub tiles: Vec<Tile>,
}

/// A `width * height * depth` mask; the tiles are stored x fastest, then y,
/// then z.
pub struct Grid3D {
    pub width: usize,
    pub height: usize,
    pub depth: usize,
    pub tiles: Vec<Tile>,
}

impl View for Grid2D {
    type V = Lattice;

    /// A planar grid is a box of depth one.
    open spec fn view(&self) -> Lattice {
        Lattice {
            w: self.width as int,
            h: self.height as int,
            d: 1,
            blocked: mask_of(self.tiles@),
        }
    }
}

impl View for Grid3D {
    type V = Lattice;

    open spec fn view(&self) -> Lattice {
        Lattice {
            w: self.width as int,
            h: self.height as int,
            d: self.depth as int,
            blocked: mask_of(self.tiles@),
        }
    }
}

impl Grid2D {
    pub open spec fn wf(&self) -> bool {
        self.tiles@.len() == self.width * self.height
    }

    pub proof fn lemma_wf(&self)
        requires
            self.wf(),
        ensures
            self@.wf(),
    {
        let (w, h) = (self.width as int, self.height as int);
        assert(w * h * 1 == w * h) by (nonlinear_arith);
    }

    /// All cells free.
    pub fn new(width: usize, height: usize) -> (r: Self)
        requires
            width * height <= usize::MAX,
        ensures
            r.wf(),
            r.width == width,
            r.height == height,
            forall|i: int| 0 <= i < r@.blocked.len() ==> !r@.blocked[i],
    {
        let n: usize = width * height;
        let mut tiles: Vec<Tile> = Vec::new();
        let mut i: usize = 0;
        while i < n
            invariant
                i <= n,
                tiles@.len() == i,
                forall|j: int| 0 <= j < i ==> !tiles@[j].is_obstacle,
            decreases n - i,
        {
            tiles.push(Tile::new());
            i = i + 1;
        }
        Grid2D { width, height, tiles }
    }

    /// Flat index of `(x, y)`.
    pub(crate) fn idx(&self, x: usize, y: usize) -> (r: usize)
        requires
            self.wf(),
            x < self.width,
            y < self.height,
        ensures
            r as int == self@.index((x as int, y as int, 0)),
            r < self.tiles@.len(),
    {
        proof {
            let (w, h) = (self.width as int, self.height as int);
            assert(0 <= y * w + x < w * h) by (nonlinear_arith)
                requires
                    0 <= x < w,
                    0 <= y < h,
            ;
        }
        let _n = self.tiles.len();
        y * self.width + x
    }

    /// Sets the flag of one cell.
    pub fn set_obstacle(&mut self, x: usize, y: usize, value: bool)
        requires
            old(self).wf(),
            x < old(self).width,
            y < old(self).height,
        ensures
            final(self).wf(),
            final(self).width == old(self).width,
            final(self).height == old(self).height,
            final(self)@.blocked == old(self)@.blocked.update(
                old(self)@.index((x as int, y as int, 0)),
                value,
            ),
    {
        let i = self.idx(x, y);
        self.tiles.set(i, Tile { is_obstacle: value });
        proof {
            assert(final(self)@.blocked =~= old(self)@.blocked.update(i as int, value));
        }
    }

    /// Sets the flag of every cell in `[x, x + w) * [y, y + h)`; the part
    /// outside the grid is ignored.
    pub fn set_rect_obstacle(&mut self, x: usize, y: usize, w: usize, h: usize, value: bool)
        requires
            old(self).wf(),
        ensures
            final(self).wf(),
            final(self).width == old(self).width,
            final(self).height == old(self).height,
            forall|p: Point|
                #![trigger old(self)@.index(p)]
                old(self)@.in_bounds(p) ==> final(self)@.blocked[old(self)@.index(p)] == if in_region(
                    p,
                    x as int,
                    y as int,
                    0,
                    w as int,
                    h as int,
                    1,
                ) {
                    value
                } else {
                    old(self)@.blocked[old(self)@.index(p)]
                },
    {
        let ghost g0 = self@;
        proof {
            self.lemma_wf();
        }
        let max_x = if x >= self.width || w >= self.width - x { self.width } else { x + w };
        let max_y = if y >= self.height || h >= self.height - y { self.height } else { y + h };
        let mut yy: usize = y;
        while yy < max_y
            invariant
                self.wf(),
                self.width == g0.w,
                self.height == g0.h,
                g0.wf(),
                g0.blocked.len() == g0.w * g0.h,
                g0.d == 1,
                y <= yy,
                yy == y || yy <= max_y,
                max_y <= self.height,
                max_x <= self.width,
                max_x as int == if x + w < g0.w { x + w } else { g0.w },
                max_y as int == if y + h < g0.h { y + h } else { g0.h },
                forall|p: Point|
                    #![trigger g0.index(p)]
                    g0.in_bounds(p) ==> self@.blocked[g0.index(p)] == if in_region(
                        p,
                        x as int,
                        y as int,
                        0,
                        w as int,
                        (yy - y) as int,
                        1,
                    ) {
                        value
                    } else {
                        g0.blocked[g0.index(p)]
                    },
            decreases max_y - yy,
        {
            let mut xx: usize = x;
            while xx < max_x
                invariant
                    self.wf(),
                    self.width == g0.w,
                    self.height == g0.h,
                    g0.wf(),
                    g0.blocked.len() == g0.w * g0.h,
                    g0.d == 1,
                g0.d == 1,
                g0.blocked.len() == g0.w * g0.h,
                g0.d == 1,
                    y <= yy < max_y,
                    x <= xx,
                    xx == x || xx <= max_x,
                    max_y <= self.height,
                    max_x <= self.width,
                    max_x as int == if x + w < g0.w { x + w } else { g0.w },
                    max_y as int == if y + h < g0.h { y + h } else { g0.h },
                    forall|p: Point|
                        #![trigger g0.index(p)]
                        g0.in_bounds(p) ==> self@.blocked[g0.index(p)] == if in_region(
                            p,
                            x as int,
                            y as int,
                            0,
                            w as int,
                            (yy - y) as int,
                            1,
                        ) || (p.1 == yy && x <= p.0 < xx) {
                            value
                        } else {
                            g0.blocked[g0.index(p)]
                        },
                decreases max_x - xx,
            {
                let ghost before = self@;
                self.set_obstacle(xx, yy, value);
                proof {
                    let c: Point = (xx as int, yy as int, 0);
                    assert forall|p: Point| #![trigger g0.index(p)] g0.in_bounds(p) implies self@.blocked[g0.index(p)] == if in_region(
                        p,
                        x as int,
                        y as int,
                        0,
                        w as int,
                        (yy - y) as int,
                        1,
                    ) || (p.1 == yy && x <= p.0 < xx + 1) {
                        value
                    } else {
                        g0.blocked[g0.index(p)]
                    } by {
                        crate::lattice::lemma_index_bounds(g0, p);
                        crate::lattice::lemma_index_bounds(g0, c);
                        assert(before.blocked[g0.index(p)] == if in_region(
                            p,
                            x as int,
                            y as int,
                            0,
                            w as int,
                            (yy - y) as int,
                            1,
                        ) || (p.1 == yy && x <= p.0 < xx) {
                            value
                        } else {
                            g0.blocked[g0.index(p)]
                        });
                        if p != c {
                            if g0.index(p) == g0.index(c) {
                                crate::lattice::lemma_index_injective(g0, p, c);
                            }
                            assert(self@.blocked[g0.index(p)] == before.blocked[g0.index(p)]);
                        } else {
                            assert(before.index(c) == g0.index(c));
                            assert(self@.blocked[g0.index(c)] == value);
                        }
                    }
                }
                xx = xx + 1;
            }
            assert forall|p: Point| #![trigger g0.index(p)] g0.in_bounds(p) implies self@.blocked[g0.index(p)] == if in_region(
                p,
                x as int,
                y as int,
                0,
                w as int,
                (yy + 1 - y) as int,
                1,
            ) {
                value
            } else {
                g0.blocked[g0.index(p)]
            } by {
                assert(in_region(p, x as int, y as int, 0, w as int, (yy + 1 - y) as int, 1) == (
                in_region(p, x as int, y as int, 0, w as int, (yy - y) as int, 1) || (p.1 == yy && x
                    <= p.0 < xx)));
            }
            yy = yy + 1;
        }
    }

    /// True outside the grid and on flagged cells.
    pub fn is_obstacle(&self, x: i32, y: i32) -> (r: bool)
        requires
            self.wf(),
        ensures
            r == self@.is_wall((x as int, y as int, 0)),
    {
        if x < 0 || y < 0 || x as usize >= self.width || y as usize >= self.height {
            return true;
        }
        let i = self.idx(x as usize, y as usize);
        self.tiles[i].is_obstacle
    }
}

impl Grid3D {
    pub open spec fn wf(&self) -> bool {
        self.tiles@.len() == self.width * self.height * self.depth
    }

    /// All cells free.
    pub fn new(width: usize, height: usize, depth: usize) -> (r: Self)
        requires
            width * height * depth <= usize::MAX,
        ensures
            r.wf(),
            r.width == width,
            r.height == height,
            r.depth == depth,
            forall|i: int| 0 <= i < r@.blocked.len() ==> !r@.blocked[i],
    {
        proof {
            let (w, h, d) = (width as int, height as int, depth as int);
            if d > 0 {
                assert(w * h <= w * h * d) by (nonlinear_arith)
                    requires
                        d > 0,
                        w >= 0,
                        h >= 0,
                ;
            }
        }
        let n: usize = if depth == 0 { 0 } else { width * height * depth };
        let mut tiles: Vec<Tile> = Vec::new();
        let mut i: usize = 0;
        while i < n
            invariant
                i <= n,
                tiles@.len() == i,
                forall|j: int| 0 <= j < i ==> !tiles@[j].is_obstacle,
            decreases n - i,
        {
            tiles.push(Tile::new());
            i = i + 1;
        }
        Grid3D { width, height, depth, tiles }
    }

    /// Flat index of `(x, y, z)`.
    pub fn idx(&self, x: usize, y: usize, z: usize) -> (r: usize)
        requires
            self.wf(),
            x < self.width,
            y < self.height,
            z < self.depth,
        ensures
            r as int == self@.index((x as int, y as int, z as int)),
            r < self.tiles@.len(),
    {
        proof {
            crate::lattice::lemma_index_bounds(self@, (x as int, y as int, z as int));
        }
        let _n = self.tiles.len();
        z * (self.width * self.height) + y * self.width + x
    }

    /// Sets the flag of one cell.
    pub fn set_obstacle(&mut self, x: usize, y: usize, z: usize, value: bool)
        requires
            old(self).wf(),
            x < old(self).width,
            y < old(self).height,
            z < old(self).depth,
        ensures
            final(self).wf(),
            final(self).width == old(self).width,
            final(self).height == old(self).height,
            final(self).depth == old(self).depth,
            final(self)@.blocked == old(self)@.blocked.update(
                old(self)@.index((x as int, y as int, z as int)),
                value,
            ),
    {
        let i = self.idx(x, y, z);
        self.tiles.set(i, Tile { is_obstacle: value });
        proof {
            assert(final(self)@.blocked =~= old(self)@.blocked.update(i as int, value));
        }
    }

    /// Sets the cells `(xx, y, z)` for `x <= xx < max_x`.
    fn fill_row(&mut self, x: usize, max_x: usize, y: usize, z: usize, value: bool)
        requires
            old(self).wf(),
            max_x <= old(self).width,
            y < old(self).height,
            z < old(self).depth,
        ensures
            final(self).wf(),
            final(self).width == old(self).width,
            final(self).height == old(self).height,
            final(self).depth == old(self).depth,
            forall|p: Point|
                #![trigger old(self)@.index(p)]
                old(self)@.in_bounds(p) ==> final(self)@.blocked[old(self)@.index(p)] == if p.1 == y
                    && p.2 == z && x <= p.0 < max_x {
                    value
                } else {
                    old(self)@.blocked[old(self)@.index(p)]
                },
    {
        let ghost g0 = self@;
        let mut xx: usize = x;
        while xx < max_x
            invariant
                self.wf(),
                self.width == g0.w,
                self.height == g0.h,
                self.depth == g0.d,
                g0.wf(),
                x <= xx,
                xx == x || xx <= max_x,
                max_x <= g0.w,
                y < g0.h,
                z < g0.d,
                forall|p: Point|
                    #![trigger g0.index(p)]
                    g0.in_bounds(p) ==> self@.blocked[g0.index(p)] == if p.1 == y && p.2 == z && x
                        <= p.0 < xx {
                        value
                    } else {
                        g0.blocked[g0.index(p)]
                    },
            decreases max_x - xx,
        {
            let ghost before = self@;
            self.set_obstacle(xx, y, z, value);
            proof {
                let c: Point = (xx as int, y as int, z as int);
                assert forall|p: Point| #![trigger g0.index(p)] g0.in_bounds(p) implies self@.blocked[g0.index(p)] == if p.1 == y && p.2 == z && x <= p.0 < xx + 1 {
                    value
                } else {
                    g0.blocked[g0.index(p)]
                } by {
                    crate::lattice::lemma_index_bounds(g0, p);
                    crate::lattice::lemma_index_bounds(g0, c);
                    if p != c {
                        if g0.index(p) == g0.index(c) {
                            crate::lattice::lemma_index_injective(g0, p, c);
                        }
                        assert(self@.blocked[g0.index(p)] == before.blocked[g0.index(p)]);
                    } else {
                        assert(self@.blocked[g0.index(c)] == value);
                    }
                }
            }
            xx = xx + 1;
        }
    }

    /// Sets the flag of every cell in `[x, x + w) * [y, y + h) * [z, z + d)`;
    /// the part outside the grid is ignored.
    pub fn set_cuboid_obstacle(
        &mut self,
        x: usize,
        y: usize,
        z: usize,
        w: usize,
        h: usize,
        d: usize,
        value: bool,
    )
        requires
            old(self).wf(),
        ensures
            final(self).wf(),
            final(self).width == old(self).width,
            final(self).height == old(self).height,
            final(self).depth == old(self).depth,
            forall|p: Point|
                #![trigger old(self)@.index(p)]
                old(self)@.in_bounds(p) ==> final(self)@.blocked[old(self)@.index(p)] == if in_region(
                    p,
                    x as int,
                    y as int,
                    z as int,
                    w as int,
                    h as int,
                    d as int,
                ) {
                    value
                } else {
                    old(self)@.blocked[old(self)@.index(p)]
                },
    {
        let ghost g0 = self@;
        let max_x = if x >= self.width || w >= self.width - x { self.width } else { x + w };
        let max_y = if y >= self.height || h >= self.height - y { self.height } else { y + h };
        let max_z = if z >= self.depth || d >= self.depth - z { self.depth } else { z + d };
        let mut zz: usize = z;
        while zz < max_z
            invariant
                self.wf(),
                self.width == g0.w,
                self.height == g0.h,
                self.depth == g0.d,
                g0.wf(),
                z <= zz,
                zz == z || zz <= max_z,
                max_x as int == if x + w < g0.w { x + w } else { g0.w },
                max_y as int == if y + h < g0.h { y + h } else { g0.h },
                max_z as int == if z + d < g0.d { z + d } else { g0.d },
                forall|p: Point|
                    #![trigger g0.index(p)]
                    g0.in_bounds(p) ==> self@.blocked[g0.index(p)] == if in_region(
                        p,
                        x as int,
                        y as int,
                        z as int,
                        w as int,
                        h as int,
                        (zz - z) as int,
                    ) {
                        value
                    } else {
                        g0.blocked[g0.index(p)]
                    },
            decreases max_z - zz,
        {
            let mut yy: usize = y;
            while yy < max_y
                invariant
                    self.wf(),
                    self.width == g0.w,
                    self.height == g0.h,
                    self.depth == g0.d,
                    g0.wf(),
                    z <= zz < max_z,
                    y <= yy,
                    yy == y || yy <= max_y,
                    max_x as int == if x + w < g0.w { x + w } else { g0.w },
                    max_y as int == if y + h < g0.h { y + h } else { g0.h },
                    max_z as int == if z + d < g0.d { z + d } else { g0.d },
                    forall|p: Point|
                        #![trigger g0.index(p)]
                        g0.in_bounds(p) ==> self@.blocked[g0.index(p)] == if in_region(
                            p,
                            x as int,
                            y as int,
                            z as int,
                            w as int,
                            h as int,
                            (zz - z) as int,
                        ) || (p.2 == zz && in_region(
                            p,
                            x as int,
                            y as int,
                            zz as int,
                            w as int,
                            (yy - y) as int,
                            1,
                        )) {
                            value
                        } else {
                            g0.blocked[g0.index(p)]
                        },
                decreases max_y - yy,
            {
                let ghost before = self@;
                self.fill_row(x, max_x, yy, zz, value);
                assert forall|p: Point| #![trigger g0.index(p)] g0.in_bounds(p) implies self@.blocked[g0.index(p)] == if in_region(
                    p,
                    x as int,
                    y as int,
                    z as int,
                    w as int,
                    h as int,
                    (zz - z) as int,
                ) || (p.2 == zz && in_region(
                    p,
                    x as int,
                    y as int,
                    zz as int,
                    w as int,
                    (yy + 1 - y) as int,
                    1,
                )) {
                    value
                } else {
                    g0.blocked[g0.index(p)]
                } by {
                    assert(before.index(p) == g0.index(p));
                }
                yy = yy + 1;
            }
            zz = zz + 1;
        }
    }

    /// True outside the grid and on flagged cells.
    pub fn is_obstacle(&self, x: i32, y: i32, z: i32) -> (r: bool)
        requires
            self.wf(),
        ensures
            r == self@.is_wall((x as int, y as int, z as int)),
    {
        if x < 0 || y < 0 || z < 0 || x as usize >= self.width || y as usize >= self.height
            || z as usize >= self.depth {
            return true;
        }
        let i = self.idx(x as usize, y as usize, z as usize);
        self.tiles[i].is_obstacle
    }
}

} // verus!
