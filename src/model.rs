use vstd::prelude::*;

use crate::error::Error;
use crate::mesh::Mesh;
use crate::units::{unit_of, Unit};

verus! {

/// One solid of a model.
pub struct Object<P> {
    pub id: usize,
    pub name: String,
    pub otype: String,
    pub mesh: Mesh<P>,
}

/// A model: one or more objects and the unit that their coordinates are written in.
pub struct Model<P> {
    pub objects: Vec<Object<P>>,
    pub unit: Unit,
}

/// Every object's mesh refers only to vertices that it has.
pub open spec fn meshes_wf<P>(objects: Seq<Object<P>>) -> bool {
    forall|k: int| 0 <= k < objects.len() ==> (#[trigger] objects[k]).mesh.wf()
}

impl<P> Model<P> {
    /// The model holds at least one object, and each mesh is well formed.
    pub open spec fn wf(&self) -> bool {
        self.objects@.len() > 0 && meshes_wf(self.objects@)
    }

    pub fn num_objects(&self) -> (r: usize)
        ensures
            r == self.objects@.len(),
    {
        self.objects.len()
    }
}

/// Builds a model from what a model file was read into: the unit name and the objects.
/// A model without objects, or with a triangle that refers to a missing vertex, is refused.
pub fn load_model<P>(unit: &str, objects: Vec<Object<P>>) -> (r: Result<Model<P>, Error>)
    ensures
        objects@.len() == 0 ==> r == Err::<Model<P>, Error>(Error::EmptyModel),
        objects@.len() > 0 && !meshes_wf(objects@) ==> r == Err::<Model<P>, Error>(
            Error::InvalidTriangle,
        ),
        objects@.len() > 0 && meshes_wf(objects@) ==> r is Ok,
        r matches Ok(m) ==> m.objects@ == objects@ && m.unit == unit_of(unit@) && m.wf(),
{
    if objects.len() == 0 {
        return Err(Error::EmptyModel);
    }
    let mut k: usize = 0;
    while k < objects.len()
        invariant
            k <= objects@.len(),
            forall|i: int| 0 <= i < k ==> (#[trigger] objects@[i]).mesh.wf(),
        decreases objects@.len() - k,
    {
        if !objects[k].mesh.is_well_formed() {
            return Err(Error::InvalidTriangle);
        }
        k = k + 1;
    }
    Ok(Model { objects, unit: Unit::new(unit) })
}

/// The one object that a model to be sliced must hold.
pub fn single_object<P>(model: &Model<P>) -> (r: Result<&Object<P>, Error>)
    requires
        model.objects@.len() > 0,
    ensures
        model.objects@.len() > 1 ==> r == Err::<&Object<P>, Error>(Error::TooManyModels),
        model.objects@.len() == 1 ==> r == Ok::<&Object<P>, Error>(&model.objects@[0]),
{
    if model.objects.len() > 1 {
        return Err(Error::TooManyModels);
    }
    Ok(&model.objects[0])
}

} // verus!
