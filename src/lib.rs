//! Flow fields over planar and volumetric grids: one cost propagation from a
//! target cell, after which every cell holds the step that leads toward it.
//! One field answers any number of agents that share the target.
//!
//! Costs are ten times the length of a walk, rounded per step: 10 along an
//! axis, 14 across a face diagonal, 17 across a corner. A cell that no walk
//! reaches keeps the cost `UNREACHABLE` and the zero step.
pub mod agent;
pub mod field;
pub mod grid;
pub mod lattice;
pub mod propagation;

pub use agent::{Agent2D, Agent3D};
pub use field::{FieldError, FlowField2D, FlowField3D};
pub use grid::{Grid2D, Grid3D, Tile};
pub use lattice::UNREACHABLE;
