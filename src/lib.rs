// Cutting planes of a triangulated solid: the mesh model, the choice of the one object
// to slice, and the removal of candidate planes that repeat a normal direction.

pub mod cuts;
pub mod direction;
pub mod error;
pub mod mesh;
pub mod model;
pub mod slice;
pub mod units;
