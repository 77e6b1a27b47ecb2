use vstd::prelude::*;

verus! {

/// A corner direction: the sign (-1 or 1) of each axis.
#[derive(Debug, PartialEq, Eq, Structural, Clone, Copy)]
pub struct Corner {
    pub x: i8,
    pub y: i8,
    pub z: i8,
}

/// The eight directions that a mesh can be anchored by. They are seen from the point
/// (1, 1, 1), looking at the origin of the object.
pub struct NormalizeLocation {}

impl NormalizeLocation {
    pub fn lower_left_back() -> (r: Corner)
        ensures
            r.x == -1 && r.y == -1 && r.z == -1,
    {
        Corner { x: -1, y: -1, z: -1 }
    }

    pub fn lower_right_back() -> (r: Corner)
        ensures
            r.x == -1 && r.y == 1 && r.z == -1,
    {
        Corner { x: -1, y: 1, z: -1 }
    }

    pub fn upper_left_back() -> (r: Corner)
        ensures
            r.x == -1 && r.y == -1 && r.z == 1,
    {
        Corner { x: -1, y: -1, z: 1 }
    }

    pub fn upper_right_back() -> (r: Corner)
        ensures
            r.x == -1 && r.y == 1 && r.z == 1,
    {
        Corner { x: -1, y: 1, z: 1 }
    }

    pub fn lower_left_front() -> (r: Corner)
        ensures
            r.x == 1 && r.y == -1 && r.z == -1,
    {
        Corner { x: 1, y: -1, z: -1 }
    }

    pub fn lower_right_front() -> (r: Corner)
        ensures
            r.x == 1 && r.y == 1 && r.z == -1,
    {
        Corner { x: 1, y: 1, z: -1 }
    }

    pub fn upper_left_front() -> (r: Corner)
        ensures
            r.x == 1 && r.y == -1 && r.z == 1,
    {
        Corner { x: 1, y: -1, z: 1 }
    }

    pub fn upper_right_front() -> (r: Corner)
        ensures
            r.x == 1 && r.y == 1 && r.z == 1,
    {
        Corner { x: 1, y: 1, z: 1 }
    }
}

} // verus!
