use vstd::prelude::*;

verus! {

/// What can go wrong while a model is taken in or sliced.
#[derive(Debug, PartialEq, Eq)]
pub enum Error {
    /// The model holds more than one object; slicing takes exactly one.
    TooManyModels,
    /// The model holds no object at all.
    EmptyModel,
    /// A triangle refers to a vertex that its mesh does not have.
    InvalidTriangle,
    /// A centroid was asked of a mesh without vertices.
    EmptyMesh,
    /// The units of a model could not be read.
    InvalidUnits(String),
    /// The model file could not be read or decoded; the text says why.
    InvalidFile(String),
}

} // verus!
