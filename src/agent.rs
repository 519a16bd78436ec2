//! Agents: a position that reads one step from a field each tick. Moving the
//! agent, with its bounds and obstacle checks, is left to the caller.
use vstd::prelude::*;
use crate::field::{FlowField2D, FlowField3D};
use crate::grid::{Grid2D, Grid3D};

verus! {

pub struct Agent2D {
    pub x: usize,
    pub y: usize,
}

impl Agent2D {
    pub fn new(x: usize, y: usize) -> (r: Self)
        ensures
            r.x == x,
            r.y == y,
    {
        Agent2D { x, y }
    }

    /// The step that `field` gives at the agent's position; the agent does
    /// not move, and `grid` is not consulted.
    pub fn target_pos(&mut self, grid: &Grid2D, field: &FlowField2D) -> (r: (i32, i32))
        requires
            field.wf(),
            old(self).x < field.width,
            old(self).y < field.height,
        ensures
            *final(self) == *old(self),
            (r.0 as int, r.1 as int) == field.direction(old(self).x as int, old(self).y as int),
    {
        field.get_direction_at(self.x, self.y)
    }
}

pub struct Agent3D {
    pub x: usize,
    pub y: usize,
    pub z: usize,
}

impl Agent3D {
    pub fn new(x: usize, y: usize, z: usize) -> (r: Self)
        ensures
            r.x == x,
            r.y == y,
            r.z == z,
    {
        Agent3D { x, y, z }
    }

    /// The step that `field` gives at the agent's position; the agent does
    /// not move, and `grid` is not consulted.
    pub fn target_pos(&mut self, grid: &Grid3D, field: &FlowField3D) -> (r: (i32, i32, i32))
        requires
            field.wf(),
            old(self).x < field.width,
            old(self).y < field.height,
            old(self).z < field.depth,
        ensures
            *final(self) == *old(self),
            (r.0 as int, r.1 as int, r.2 as int) == field.direction(
                (old(self).x as int, old(self).y as int, old(self).z as int),
            ),
    {
        field.get_direction_at(self.x, self.y, self.z)
    }
}

} // verus!
