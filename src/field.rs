//! Flow fields toward one target: the cost of every cell, and the step that
//! leads from it toward the target. Built once, then only read.
use vstd::prelude::*;
use crate::grid::{Grid2D, Grid3D};
use crate::lattice::{direction_at, direction_of, flat_index, lemma_index_bounds, Lattice, Point};
use crate::propagation::{
    derive_steps, is_flow, lemma_descent, step_of, lemma_flow_unique, lemma_target_rests, point_of,
    propagate,
};

verus! {

/// Why a field cannot be built toward a target.
#[derive(Debug, Clone, Copy, PartialEq, Eq, Structural)]
pub enum FieldError {
    TargetOutOfBounds,
    TargetOnObstacle,
}

/// A field over a planar grid. `costs` and `steps` are stored row by row;
/// a step is an index into the neighbour offsets, or `NO_STEP`.
pub struct FlowField2D {
    pub width: usize,
    pub height: usize,
    pub costs: Vec<i32>,
    pub steps: Vec<usize>,
}

/// A field over a volumetric grid, stored x fastest, then y, then z.
pub struct FlowField3D {
    pub width: usize,
    pub height: usize,
    pub depth: usize,
    pub costs: Vec<i32>,
    pub steps: Vec<usize>,
}

impl FlowField2D {
    pub open spec fn wf(&self) -> bool {
        &&& self.costs@.len() == self.width * self.height
        &&& self.steps@.len() == self.costs@.len()
    }

    pub open spec fn cost(&self, x: int, y: int) -> int {
        self.costs@[flat_index(self.width as int, self.height as int, (x, y, 0))] as int
    }

    pub open spec fn direction(&self, x: int, y: int) -> (int, int) {
        let v = direction_of(
            self.steps@[flat_index(self.width as int, self.height as int, (x, y, 0))] as int,
        );
        (v.0, v.1)
    }

    /// This is the flow field toward `t` over the planar box `g`.
    pub open spec fn is_flow_of(&self, g: Lattice, t: Point) -> bool {
        &&& self.width == g.w
        &&& self.height == g.h
        &&& g.d == 1
        &&& is_flow(g, t, self.costs@, self.steps@)
    }

    /// Builds the field toward `target`, which must be a free cell.
    pub fn new(grid: &Grid2D, target: (usize, usize)) -> (r: Self)
        requires
            grid.wf(),
            grid@.is_free((target.0 as int, target.1 as int, 0)),
        ensures
            r.wf(),
            r.is_flow_of(grid@, (target.0 as int, target.1 as int, 0)),
            r.cost(target.0 as int, target.1 as int) == 0,
            r.direction(target.0 as int, target.1 as int) == (0int, 0int),
            forall|x: int, y: int|
                #![trigger r.direction(x, y)]
                grid@.in_bounds((x, y, 0)) ==> direction_of(
                    r.steps@[grid@.index((x, y, 0))] as int,
                ).2 == 0,
            forall|x: int, y: int|
                #![trigger r.direction(x, y)]
                grid@.in_bounds((x, y, 0)) && grid@.blocked[grid@.index((x, y, 0))] ==> r.direction(
                    x,
                    y,
                ) == (0int, 0int),
    {
        proof {
            grid.lemma_wf();
        }
        let t3 = (target.0, target.1, 0usize);
        let costs = propagate(grid.width, grid.height, 1, &grid.tiles, t3);
        let steps = derive_steps(grid.width, grid.height, 1, &grid.tiles, &costs);
        let r = FlowField2D { width: grid.width, height: grid.height, costs, steps };
        proof {
            let g = grid@;
            lemma_target_rests(g, point_of(t3), r.costs@, r.steps@);
            assert forall|x: int, y: int|
                #![trigger r.direction(x, y)]
                g.in_bounds((x, y, 0)) implies direction_of(
                r.steps@[g.index((x, y, 0))] as int,
            ).2 == 0 by {
                assert(step_of(g, r.costs@, (x, y, 0), r.steps@[g.index((x, y, 0))] as int));
            }
        }
        r
    }

    /// Builds the field toward `target`, or says why it cannot.
    pub fn try_new(grid: &Grid2D, target: (usize, usize)) -> (r: Result<Self, FieldError>)
        requires
            grid.wf(),
        ensures
            target.0 >= grid.width || target.1 >= grid.height ==> r == Err::<Self, FieldError>(
                FieldError::TargetOutOfBounds,
            ),
            target.0 < grid.width && target.1 < grid.height && grid@.blocked[grid@.index(
                (target.0 as int, target.1 as int, 0),
            )] ==> r == Err::<Self, FieldError>(FieldError::TargetOnObstacle),
            grid@.is_free((target.0 as int, target.1 as int, 0)) ==> r is Ok && r->Ok_0.wf()
                && r->Ok_0.is_flow_of(grid@, (target.0 as int, target.1 as int, 0)),
    {
        if target.0 >= grid.width || target.1 >= grid.height {
            return Err(FieldError::TargetOutOfBounds);
        }
        if grid.tiles[grid.idx(target.0, target.1)].is_obstacle {
            return Err(FieldError::TargetOnObstacle);
        }
        Ok(FlowField2D::new(grid, target))
    }

    /// The step to take from `(x, y)`: zero at the target, on obstacles and
    /// on cells that cannot reach the target.
    pub fn get_direction_at(&self, x: usize, y: usize) -> (r: (i32, i32))
        requires
            self.wf(),
            x < self.width,
            y < self.height,
        ensures
            (r.0 as int, r.1 as int) == self.direction(x as int, y as int),
    {
        let i = self.index_of(x, y);
        let v = direction_at(self.steps[i]);
        (v.0, v.1)
    }

    /// The cost of `(x, y)`; `UNREACHABLE` where no walk leads there.
    pub fn get_cost_at(&self, x: usize, y: usize) -> (r: i32)
        requires
            self.wf(),
            x < self.width,
            y < self.height,
        ensures
            r as int == self.cost(x as int, y as int),
    {
        let i = self.index_of(x, y);
        self.costs[i]
    }

    fn index_of(&self, x: usize, y: usize) -> (r: usize)
        requires
            self.wf(),
            x < self.width,
            y < self.height,
        ensures
            r as int == flat_index(self.width as int, self.height as int, (x as int, y as int, 0)),
            r < self.costs@.len(),
    {
        proof {
            let (w, h) = (self.width as int, self.height as int);
            assert(0 <= y * w + x < w * h) by (nonlinear_arith)
                requires
                    0 <= x < w,
                    0 <= y < h,
            ;
        }
        let _n = self.costs.len();
        y * self.width + x
    }

    /// From every free cell other than the target that can reach it, the
    /// step leads to an in-grid neighbour of strictly lower cost.
    pub proof fn lemma_descends(&self, grid: &Grid2D, target: (usize, usize), x: int, y: int)
        requires
            grid.wf(),
            grid@.is_free((target.0 as int, target.1 as int, 0)),
            self.is_flow_of(grid@, (target.0 as int, target.1 as int, 0)),
            grid@.is_free((x, y, 0)),
            (x, y) != (target.0 as int, target.1 as int),
            self.cost(x, y) != i32::MAX,
        ensures
            grid@.in_bounds((x + self.direction(x, y).0, y + self.direction(x, y).1, 0)),
            self.cost(x + self.direction(x, y).0, y + self.direction(x, y).1) < self.cost(x, y),
    {
        grid.lemma_wf();
        lemma_descent(
            grid@,
            (target.0 as int, target.1 as int, 0),
            self.costs@,
            self.steps@,
            (x, y, 0),
        );
    }

    /// Two fields built toward one target over one grid are identical.
    pub proof fn lemma_deterministic(
        &self,
        other: &Self,
        grid: &Grid2D,
        target: (usize, usize),
    )
        requires
            grid.wf(),
            self.is_flow_of(grid@, (target.0 as int, target.1 as int, 0)),
            other.is_flow_of(grid@, (target.0 as int, target.1 as int, 0)),
        ensures
            self.costs@ == other.costs@,
            self.steps@ == other.steps@,
    {
        grid.lemma_wf();
        lemma_flow_unique(
            grid@,
            (target.0 as int, target.1 as int, 0),
            self.costs@,
            self.steps@,
            other.costs@,
            other.steps@,
        );
    }
}

impl FlowField3D {
    pub open spec fn wf(&self) -> bool {
        &&& self.costs@.len() == self.width * self.height * self.depth
        &&& self.steps@.len() == self.costs@.len()
    }

    pub open spec fn cost(&self, p: Point) -> int {
        self.costs@[flat_index(self.width as int, self.height as int, p)] as int
    }

    pub open spec fn direction(&self, p: Point) -> (int, int, int) {
        direction_of(self.steps@[flat_index(self.width as int, self.height as int, p)] as int)
    }

    /// This is the flow field toward `t` over the box `g`.
    pub open spec fn is_flow_of(&self, g: Lattice, t: Point) -> bool {
        &&& self.width == g.w
        &&& self.height == g.h
        &&& self.depth == g.d
        &&& is_flow(g, t, self.costs@, self.steps@)
    }

    /// Builds the field toward `target`, which must be a free cell.
    pub fn new(grid: &Grid3D, target: (usize, usize, usize)) -> (r: Self)
        requires
            grid.wf(),
            grid@.is_free(point_of(target)),
        ensures
            r.wf(),
            r.is_flow_of(grid@, point_of(target)),
            r.cost(point_of(target)) == 0,
            r.direction(point_of(target)) == (0int, 0int, 0int),
            forall|p: Point|
                #![trigger r.direction(p)]
                grid@.in_bounds(p) && grid@.blocked[grid@.index(p)] ==> r.direction(p) == (
                    0int,
                    0int,
                    0int,
                ),
    {
        let costs = propagate(grid.width, grid.height, grid.depth, &grid.tiles, target);
        let steps = derive_steps(grid.width, grid.height, grid.depth, &grid.tiles, &costs);
        let r = FlowField3D {
            width: grid.width,
            height: grid.height,
            depth: grid.depth,
            costs,
            steps,
        };
        proof {
            let g = grid@;
            lemma_target_rests(g, point_of(target), r.costs@, r.steps@);
        }
        r
    }

    /// Builds the field toward `target`, or says why it cannot.
    pub fn try_new(grid: &Grid3D, target: (usize, usize, usize)) -> (r: Result<Self, FieldError>)
        requires
            grid.wf(),
        ensures
            !grid@.in_bounds(point_of(target)) ==> r == Err::<Self, FieldError>(
                FieldError::TargetOutOfBounds,
            ),
            grid@.in_bounds(point_of(target)) && grid@.blocked[grid@.index(point_of(target))] ==> r
                == Err::<Self, FieldError>(FieldError::TargetOnObstacle),
            grid@.is_free(point_of(target)) ==> r is Ok && r->Ok_0.wf() && r->Ok_0.is_flow_of(
                grid@,
                point_of(target),
            ),
    {
        if target.0 >= grid.width || target.1 >= grid.height || target.2 >= grid.depth {
            return Err(FieldError::TargetOutOfBounds);
        }
        if grid.tiles[grid.idx(target.0, target.1, target.2)].is_obstacle {
            return Err(FieldError::TargetOnObstacle);
        }
        Ok(FlowField3D::new(grid, target))
    }

    /// The step to take from `(x, y, z)`: zero at the target, on obstacles
    /// and on cells that cannot reach the target.
    pub fn get_direction_at(&self, x: usize, y: usize, z: usize) -> (r: (i32, i32, i32))
        requires
            self.wf(),
            x < self.width,
            y < self.height,
            z < self.depth,
        ensures
            (r.0 as int, r.1 as int, r.2 as int) == self.direction((x as int, y as int, z as int)),
    {
        let i = self.index_of(x, y, z);
        direction_at(self.steps[i])
    }

    /// The cost of `(x, y, z)`; `UNREACHABLE` where no walk leads there.
    pub fn get_cost_at(&self, x: usize, y: usize, z: usize) -> (r: i32)
        requires
            self.wf(),
            x < self.width,
            y < self.height,
            z < self.depth,
        ensures
            r as int == self.cost((x as int, y as int, z as int)),
    {
        let i = self.index_of(x, y, z);
        self.costs[i]
    }

    fn index_of(&self, x: usize, y: usize, z: usize) -> (r: usize)
        requires
            self.wf(),
            x < self.width,
            y < self.height,
            z < self.depth,
        ensures
            r as int == flat_index(self.width as int, self.height as int, (x as int, y as int, z as int)),
            r < self.costs@.len(),
    {
        let ghost g = Lattice {
            w: self.width as int,
            h: self.height as int,
            d: self.depth as int,
            blocked: Seq::new(self.costs@.len(), |i: int| false),
        };
        proof {
            lemma_index_bounds(g, (x as int, y as int, z as int));
        }
        let _n = self.costs.len();
        z * (self.width * self.height) + y * self.width + x
    }

    /// From every free cell other than the target that can reach it, the
    /// step leads to an in-grid neighbour of strictly lower cost.
    pub proof fn lemma_descends(&self, grid: &Grid3D, target: (usize, usize, usize), p: Point)
        requires
            grid.wf(),
            grid@.is_free(point_of(target)),
            self.is_flow_of(grid@, point_of(target)),
            grid@.is_free(p),
            p != point_of(target),
            self.cost(p) != i32::MAX,
        ensures
            ({
                let v = self.direction(p);
                let n = (p.0 + v.0, p.1 + v.1, p.2 + v.2);
                grid@.in_bounds(n) && self.cost(n) < self.cost(p)
            }),
    {
        lemma_descent(grid@, point_of(target), self.costs@, self.steps@, p);
    }

    /// Two fields built toward one target over one grid are identical.
    pub proof fn lemma_deterministic(
        &self,
        other: &Self,
        grid: &Grid3D,
        target: (usize, usize, usize),
    )
        requires
            grid.wf(),
            self.is_flow_of(grid@, point_of(target)),
            other.is_flow_of(grid@, point_of(target)),
        ensures
            self.costs@ == other.costs@,
            self.steps@ == other.steps@,
    {
        lemma_flow_unique(
            grid@,
            point_of(target),
            self.costs@,
            self.steps@,
            other.costs@,
            other.steps@,
        );
    }
}

} // verus!
