//! Culling: the grid of the instances that may come into view, and those that are in view.
use crate::entity::EntityTypeId;
use crate::entity::FieldId;
use crate::entity::InstanceId;
use crate::float64::F64;
use crate::lists::first;
use crate::lists::lemma_first;
use crate::render::store::RFieldId;
use crate::render::submission::Bucket;
use crate::render::visible::Axes;
use crate::render::visible::CullShape;
use crate::spatial::SpatialGrid;
use crate::value::Val;
use crate::value::Value;
use vstd::prelude::*;

verus! {

/// A type whose instances are culled.
#[derive(Clone, Copy, Debug)]
pub struct CulledType {
    pub ty: EntityTypeId,
    /// The simulation's field that holds the position.
    pub translation_field: FieldId,
    /// The mirror of that field.
    pub track_slot: usize,
    /// The render field that receives the distance to the camera.
    pub dist_field: Option<RFieldId>,
}

/// The place of the type among the culled ones.
pub open spec fn culled_at(cs: Seq<CulledType>, ty: EntityTypeId) -> int {
    first(cs, |c: CulledType| c.ty == ty)
}

pub fn find_culled(cs: &Vec<CulledType>, ty: EntityTypeId) -> (r: usize)
    ensures
        r == culled_at(cs@, ty),
        r <= cs@.len(),
        forall|i: int| 0 <= i < r ==> (#[trigger] cs@[i]).ty != ty,
        r < cs@.len() ==> cs@[r as int].ty == ty,
{
    let mut i: usize = 0;
    while i < cs.len()
        invariant
            i <= cs@.len(),
            forall|j: int| 0 <= j < i ==> (#[trigger] cs@[j]).ty != ty,
        ensures
            i <= cs@.len(),
            forall|j: int| 0 <= j < i ==> (#[trigger] cs@[j]).ty != ty,
            i < cs@.len() ==> cs@[i as int].ty == ty,
        decreases cs@.len() - i,
    {
        if cs[i].ty == ty {
            break;
        }
        i = i + 1;
    }
    proof {
        lemma_first(cs@, |c: CulledType| c.ty == ty, i as int);
    }
    i
}

/// What culling needs: the grid, the camera, and what is in view.
pub struct Spatial {
    pub grid: SpatialGrid,
    pub axes: Axes,
    pub camera: InstanceId,
    /// The render field that holds the camera's position.
    pub cam_pos: RFieldId,
    pub shape: CullShape,
    pub culled: Vec<CulledType>,
    /// What is in view: one bucket per culled type.
    pub visible: Vec<Bucket>,
    /// The camera was there and had a position when the view was last computed.
    pub active: bool,
}

impl Spatial {
    pub open spec fn wf(self) -> bool {
        &&& self.grid.wf()
        &&& self.visible@.len() == self.culled@.len()
        &&& forall|k: int|
            0 <= k < self.culled@.len() ==> (#[trigger] self.visible@[k]).ty == self.culled@[k].ty
        &&& forall|i: int, j: int|
            0 <= i < j < self.culled@.len() ==> (#[trigger] self.culled@[i]).ty != (
            #[trigger] self.culled@[j]).ty
    }

    /// The declaration for a type, if it is culled.
    pub open spec fn culling(self, ty: EntityTypeId) -> Option<CulledType> {
        let k = culled_at(self.culled@, ty);
        if 0 <= k < self.culled@.len() {
            Some(self.culled@[k])
        } else {
            None
        }
    }

    pub fn culling_of(&self, ty: EntityTypeId) -> (r: Option<CulledType>)
        ensures
            r == self.culling(ty),
            r is Some ==> r->0.ty == ty,
    {
        let k = find_culled(&self.culled, ty);
        if k < self.culled.len() {
            Some(self.culled[k])
        } else {
            None
        }
    }

    /// Where a position stands in the grid, if it can.
    pub open spec fn place(self, v: Val) -> Option<(F64, F64)> {
        match self.axes.project_spec(v) {
            Some((x, y)) => if self.grid.holds(x, y) {
                Some((x, y))
            } else {
                None
            },
            None => None,
        }
    }

    /// Everything but the residents of the grid is as in `other`.
    pub open spec fn same_view(self, other: Spatial) -> bool {
        &&& self.axes == other.axes
        &&& self.camera == other.camera
        &&& self.cam_pos == other.cam_pos
        &&& self.shape == other.shape
        &&& self.culled == other.culled
        &&& self.visible == other.visible
        &&& self.active == other.active
        &&& self.grid.inv_cell == other.grid.inv_cell
        &&& self.grid.cell_size == other.grid.cell_size
    }

    /// Moves an instance to a position, or out of the grid where the position has no place.
    pub fn put(&mut self, inst: InstanceId, v: &Value)
        requires
            old(self).wf(),
        ensures
            final(self).wf(),
            final(self).same_view(*old(self)),
            forall|i: InstanceId| #[trigger]
                final(self).grid.at(i) == (if i == inst {
                    old(self).place(v@)
                } else {
                    old(self).grid.at(i)
                }),
    {
        match self.axes.project(v) {
            Some((x, y)) => if self.grid.can_hold(x, y) {
                self.grid.update(inst, x, y);
            } else {
                self.grid.remove(inst);
            },
            None => {
                self.grid.remove(inst);
            },
        }
    }

    /// Takes an instance out of the grid.
    pub fn drop_out(&mut self, inst: InstanceId)
        requires
            old(self).wf(),
        ensures
            final(self).wf(),
            final(self).same_view(*old(self)),
            forall|i: InstanceId| #[trigger]
                final(self).grid.at(i) == (if i == inst {
                    None
                } else {
                    old(self).grid.at(i)
                }),
    {
        self.grid.remove(inst);
    }

    /// Takes every instance under an id out of the grid.
    pub fn clear_slot(&mut self, inst: InstanceId)
        requires
            old(self).wf(),
        ensures
            final(self).wf(),
            final(self).same_view(*old(self)),
            forall|i: InstanceId| #[trigger]
                final(self).grid.at(i) == (if i.ty == inst.ty && i.id == inst.id {
                    None
                } else {
                    old(self).grid.at(i)
                }),
    {
        self.grid.remove_slot(inst);
    }
}

}
