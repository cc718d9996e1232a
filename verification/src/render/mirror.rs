//! The mirror of the simulation: the instances that are there, their tracked fields, who is
//! fading, and where the culled ones stand.
use crate::entity::EntityTypeId;
use crate::entity::FieldId;
use crate::entity::InstanceId;
use crate::float64::F64;
use crate::render::culling::CulledType;
use crate::render::culling::Spatial;
use crate::render::interp::Track;
use crate::lists::first;
use crate::lists::kept;
use crate::lists::lemma_first;
use crate::lists::lemma_kept;
use crate::lists::lemma_kept_all;
use crate::lists::lemma_kept_distinct;
use crate::lists::lemma_kept_next;
use crate::lists::lemma_kept_same;
use crate::lists::lemma_kept_twice;
use crate::render::store::RFieldId;
use crate::render::store::RenderStore;
use crate::render::visible::positive;
use crate::value::Val;
use crate::value::Value;
use vstd::prelude::*;

verus! {

/// How the dead of a type fade.
#[derive(Clone, Copy, Debug)]
pub struct Fade {
    pub ty: EntityTypeId,
    /// The render field that goes from one to zero.
    pub field: RFieldId,
    /// In seconds.
    pub duration: F64,
}

/// The mirror.
pub struct Mirror {
    pub store: RenderStore,
    /// The defaults of the simulation's fields, by type.
    pub defaults: Vec<Vec<Value>>,
    pub tracks: Vec<Track>,
    /// What moved in the last simulation frame: instance and track.
    pub active: Vec<(InstanceId, usize)>,
    /// Who is fading, and for how many seconds more.
    pub dying: Vec<(InstanceId, F64)>,
    pub fades: Vec<Fade>,
    pub spatial: Option<Spatial>,
}

/// The instances have the same id, though perhaps not the same generation.
pub open spec fn same_slot(a: InstanceId, b: InstanceId) -> bool {
    a.ty == b.ty && a.id == b.id
}

impl Mirror {
    /// The default of a simulation field.
    pub open spec fn default_of(self, ty: EntityTypeId, f: FieldId) -> Val {
        if ty.0 < self.defaults@.len() && f.0 < self.defaults@[ty.0 as int]@.len() {
            self.defaults@[ty.0 as int]@[f.0 as int]@
        } else {
            Val::Null
        }
    }

    pub fn default_val(&self, ty: EntityTypeId, f: FieldId) -> (r: Value)
        ensures
            r@ == self.default_of(ty, f),
    {
        if (ty.0 as usize) < self.defaults.len() {
            let fs = &self.defaults[ty.0 as usize];
            if (f.0 as usize) < fs.len() {
                return fs[f.0 as usize].clone();
            }
        }
        Value::Null
    }

    /// A track has its mirror and its output, and both start from the field's default.
    pub open spec fn track_ok(self, tr: Track) -> bool {
        &&& self.store.slot_known(tr.ty, tr.slot as int)
        &&& self.store.field_known(tr.ty, tr.out)
        &&& self.store.at(tr.ty).tracks@[tr.slot as int].sim_field == tr.sim_field
        &&& self.store.at(tr.ty).tracks@[tr.slot as int].default@ == self.default_of(
            tr.ty,
            tr.sim_field,
        )
        &&& self.store.at(tr.ty).render_defaults@[tr.out.0 as int]@ == tr.kind.out_default_spec(
            self.default_of(tr.ty, tr.sim_field),
        )
    }

    pub open spec fn tracks_ok(self) -> bool {
        &&& forall|i: int| 0 <= i < self.tracks@.len() ==> self.track_ok(#[trigger] self.tracks@[i])
        &&& forall|i: int, j: int|
            0 <= i < j < self.tracks@.len() && (#[trigger] self.tracks@[i]).ty == (
            #[trigger] self.tracks@[j]).ty ==> self.tracks@[i].slot != self.tracks@[j].slot
                && self.tracks@[i].out != self.tracks@[j].out
    }

    /// Every mirror is that of a track.
    pub open spec fn slots_tracked(self) -> bool {
        forall|ty: EntityTypeId, t: int| #[trigger]
            self.store.slot_known(ty, t) ==> exists|ti: int|
                0 <= ti < self.tracks@.len() && (#[trigger] self.tracks@[ti]).ty == ty
                    && self.tracks@[ti].slot == t
    }

    pub open spec fn active_ok(self) -> bool {
        &&& self.active@.no_duplicates()
        &&& forall|k: int|
            0 <= k < self.active@.len() ==> (#[trigger] self.active@[k]).1 < self.tracks@.len()
                && self.tracks@[self.active@[k].1 as int].ty == self.active@[k].0.ty
    }

    /// Nobody fades twice.
    pub open spec fn dying_ok(self) -> bool {
        forall|i: int, j: int|
            0 <= i < j < self.dying@.len() ==> (#[trigger] self.dying@[i]).0 != (
            #[trigger] self.dying@[j]).0
    }

    pub open spec fn fades_ok(self) -> bool {
        forall|i: int|
            0 <= i < self.fades@.len() ==> self.store.field_known(
                (#[trigger] self.fades@[i]).ty,
                self.fades@[i].field,
            ) && positive(self.fades@[i].duration)
    }

    pub open spec fn culled_ok(self, sp: Spatial) -> bool {
        forall|k: int|
            0 <= k < sp.culled@.len() ==> self.culled_tracked(#[trigger] sp.culled@[k])
    }

    /// A culled type is placed by a tracked field.
    pub open spec fn culled_tracked(self, c: CulledType) -> bool {
        &&& c.dist_field is Some ==> self.store.field_known(c.ty, c.dist_field->0)
        &&& exists|ti: int|
            0 <= ti < self.tracks@.len() && (#[trigger] self.tracks@[ti]).ty == c.ty
                && self.tracks@[ti].sim_field == c.translation_field && self.tracks@[ti].slot
                == c.track_slot
    }

    pub open spec fn wf(self) -> bool {
        &&& self.store.wf()
        &&& self.tracks_ok()
        &&& self.slots_tracked()
        &&& self.active_ok()
        &&& self.dying_ok()
        &&& self.fades_ok()
        &&& self.spatial is Some ==> self.spatial->0.wf() && self.culled_ok(self.spatial->0)
    }

    /// The place of an instance in the grid.
    pub open spec fn grid_at(self, i: InstanceId) -> Option<(F64, F64)> {
        match self.spatial {
            Some(sp) => sp.grid.at(i),
            None => None,
        }
    }

    /// The culling of a type, if culling is on and the type is culled.
    pub open spec fn culling(self, ty: EntityTypeId) -> Option<CulledType> {
        match self.spatial {
            Some(sp) => sp.culling(ty),
            None => None,
        }
    }

    /// The place of a position in the grid.
    pub open spec fn place(self, v: Val) -> Option<(F64, F64)> {
        match self.spatial {
            Some(sp) => sp.place(v),
            None => None,
        }
    }

    /// The fading of a type.
    pub open spec fn fading(self, ty: EntityTypeId) -> Option<Fade> {
        let k = first(self.fades@, |f: Fade| f.ty == ty);
        if 0 <= k < self.fades@.len() {
            Some(self.fades@[k])
        } else {
            None
        }
    }

    /// What was registered is as in `other`: fields, tracks, fading, and culling.
    pub open spec fn same_setup(self, other: Mirror) -> bool {
        &&& self.store.same_schema(other.store)
        &&& self.defaults == other.defaults
        &&& self.tracks == other.tracks
        &&& self.fades == other.fades
        &&& self.spatial is Some <==> other.spatial is Some
        &&& self.spatial is Some ==> {
            let (a, b) = (self.spatial->0, other.spatial->0);
            &&& a.axes == b.axes
            &&& a.camera == b.camera
            &&& a.cam_pos == b.cam_pos
            &&& a.shape == b.shape
            &&& a.culled == b.culled
            &&& a.grid.inv_cell == b.grid.inv_cell
            &&& a.grid.cell_size == b.grid.cell_size
        }
    }

    /// What is in view is as in `other`.
    pub open spec fn same_view(self, other: Mirror) -> bool {
        &&& self.spatial is Some <==> other.spatial is Some
        &&& self.spatial is Some ==> self.spatial->0.same_view(other.spatial->0)
    }

    pub fn fade_of(&self, ty: EntityTypeId) -> (r: Option<Fade>)
        ensures
            r == self.fading(ty),
            r is Some ==> exists|k: int| 0 <= k < self.fades@.len() && self.fades@[k] == r->0,
            r is Some ==> r->0.ty == ty,
    {
        let mut i: usize = 0;
        while i < self.fades.len()
            invariant
                i <= self.fades@.len(),
                forall|j: int| 0 <= j < i ==> (#[trigger] self.fades@[j]).ty != ty,
            decreases self.fades@.len() - i,
        {
            if self.fades[i].ty == ty {
                proof {
                    lemma_first(self.fades@, |f: Fade| f.ty == ty, i as int);
                }
                return Some(self.fades[i]);
            }
            i = i + 1;
        }
        proof {
            lemma_first(self.fades@, |f: Fade| f.ty == ty, i as int);
        }
        None
    }

    pub fn culling_of(&self, ty: EntityTypeId) -> (r: Option<CulledType>)
        ensures
            r == self.culling(ty),
            r is Some ==> r->0.ty == ty,
            r is Some ==> self.spatial is Some,
    {
        match &self.spatial {
            Some(sp) => sp.culling_of(ty),
            None => None,
        }
    }

    /// Moves an instance in the grid.
    pub fn put(&mut self, inst: InstanceId, v: &Value)
        requires
            old(self).wf(),
        ensures
            final(self).wf(),
            *final(self) == (Mirror { spatial: final(self).spatial, ..*old(self) }),
            final(self).same_view(*old(self)),
            forall|i: InstanceId| #[trigger]
                final(self).grid_at(i) == (if i == inst {
                    old(self).place(v@)
                } else {
                    old(self).grid_at(i)
                }),
    {
        if let Some(sp) = &mut self.spatial {
            sp.put(inst, v);
        }
    }

    /// Takes an instance out of the grid.
    pub fn drop_out(&mut self, inst: InstanceId)
        requires
            old(self).wf(),
        ensures
            final(self).wf(),
            *final(self) == (Mirror { spatial: final(self).spatial, ..*old(self) }),
            final(self).same_view(*old(self)),
            forall|i: InstanceId| #[trigger]
                final(self).grid_at(i) == (if i == inst {
                    None
                } else {
                    old(self).grid_at(i)
                }),
    {
        if let Some(sp) = &mut self.spatial {
            sp.drop_out(inst);
        }
    }

    /// Takes every instance under an id out of the grid.
    pub fn clear_slot(&mut self, inst: InstanceId)
        requires
            old(self).wf(),
        ensures
            final(self).wf(),
            *final(self) == (Mirror { spatial: final(self).spatial, ..*old(self) }),
            final(self).same_view(*old(self)),
            forall|i: InstanceId| #[trigger]
                final(self).grid_at(i) == (if same_slot(i, inst) {
                    None
                } else {
                    old(self).grid_at(i)
                }),
    {
        if let Some(sp) = &mut self.spatial {
            sp.clear_slot(inst);
        }
    }
}

/// Keeps the fading instances under other ids.
fn dying_elsewhere(dying: &Vec<(InstanceId, F64)>, inst: InstanceId) -> (r: Vec<(InstanceId, F64)>)
    ensures
        r@ == kept(dying@, |d: (InstanceId, F64)| !same_slot(d.0, inst)),
{
    let ghost p = |d: (InstanceId, F64)| !same_slot(d.0, inst);
    let mut out: Vec<(InstanceId, F64)> = Vec::new();
    let mut i: usize = 0;
    assert(dying@.take(0) =~= Seq::empty());
    while i < dying.len()
        invariant
            p == (|d: (InstanceId, F64)| !same_slot(d.0, inst)),
            i <= dying@.len(),
            out@ == kept(dying@.take(i as int), p),
        decreases dying@.len() - i,
    {
        proof {
            lemma_kept_next(dying@, p, i as int);
        }
        let d = dying[i];
        if !(d.0.ty == inst.ty && d.0.id == inst.id) {
            out.push(d);
        }
        i = i + 1;
    }
    assert(dying@.take(dying@.len() as int) =~= dying@);
    out
}

/// Keeps the movements of instances under other ids.
fn active_elsewhere(active: &Vec<(InstanceId, usize)>, inst: InstanceId) -> (r: Vec<
    (InstanceId, usize),
>)
    ensures
        r@ == kept(active@, |a: (InstanceId, usize)| !same_slot(a.0, inst)),
{
    let ghost p = |a: (InstanceId, usize)| !same_slot(a.0, inst);
    let mut out: Vec<(InstanceId, usize)> = Vec::new();
    let mut i: usize = 0;
    assert(active@.take(0) =~= Seq::empty());
    while i < active.len()
        invariant
            p == (|a: (InstanceId, usize)| !same_slot(a.0, inst)),
            i <= active@.len(),
            out@ == kept(active@.take(i as int), p),
        decreases active@.len() - i,
    {
        proof {
            lemma_kept_next(active@, p, i as int);
        }
        let a = active[i];
        if !(a.0.ty == inst.ty && a.0.id == inst.id) {
            out.push(a);
        }
        i = i + 1;
    }
    assert(active@.take(active@.len() as int) =~= active@);
    out
}

/// Of movements with the properties of the list, those that are kept have them.
pub proof fn lemma_active_kept(m: Mirror, active: Seq<(InstanceId, usize)>, p: spec_fn(
    (InstanceId, usize),
) -> bool)
    requires
        m.active_ok(),
        active == kept(m.active@, p),
    ensures
        active.no_duplicates(),
        forall|k: int|
            0 <= k < active.len() ==> (#[trigger] active[k]).1 < m.tracks@.len()
                && m.tracks@[active[k].1 as int].ty == active[k].0.ty,
{
    lemma_kept(m.active@, p);
    lemma_kept_distinct(m.active@, p);
    assert forall|k: int| 0 <= k < active.len() implies (#[trigger] active[k]).1 < m.tracks@.len()
        && m.tracks@[active[k].1 as int].ty == active[k].0.ty by {
        assert(active.contains(active[k]));
        let j = choose|j: int| 0 <= j < m.active@.len() && m.active@[j] == active[k];
        assert(m.active@[j].1 < m.tracks@.len());
    }
}

/// Of a list in which nobody occurs twice, what is kept is such a list.
pub proof fn lemma_dying_kept(dying: Seq<(InstanceId, F64)>, p: spec_fn((InstanceId, F64)) -> bool)
    requires
        forall|i: int, j: int|
            0 <= i < j < dying.len() ==> (#[trigger] dying[i]).0 != (#[trigger] dying[j]).0,
    ensures
        forall|i: int, j: int|
            0 <= i < j < kept(dying, p).len() ==> (#[trigger] kept(dying, p)[i]).0 != (
            #[trigger] kept(dying, p)[j]).0,
    decreases dying.len(),
{
    if dying.len() > 0 {
        let t = dying.drop_last();
        assert forall|i: int, j: int| 0 <= i < j < t.len() implies (#[trigger] t[i]).0 != (
        #[trigger] t[j]).0 by {
            assert(t[i] == dying[i] && t[j] == dying[j]);
        }
        lemma_dying_kept(t, p);
        lemma_kept(t, p);
        let k = kept(dying, p);
        assert forall|i: int, j: int| 0 <= i < j < k.len() implies (#[trigger] k[i]).0 != (
        #[trigger] k[j]).0 by {
            if j < kept(t, p).len() {
                assert(kept(t, p)[i].0 != kept(t, p)[j].0);
            } else {
                assert(kept(t, p).contains(k[i]));
                let x = choose|x: int| 0 <= x < t.len() && t[x] == k[i];
                assert(dying[x] == k[i]);
                assert(dying[x].0 != dying[dying.len() - 1].0);
            }
        }
    }
}

/// Mirrors that differ in their instances alone have the same tracks.
pub proof fn lemma_setup_kept(a: Mirror, b: Mirror)
    requires
        b.wf(),
        a.store.wf(),
        a.same_setup(b),
        a.active_ok(),
        a.dying_ok(),
        a.spatial is Some ==> a.spatial->0.wf(),
    ensures
        a.wf(),
{
    assert forall|i: int| 0 <= i < a.tracks@.len() implies a.track_ok(#[trigger] a.tracks@[i]) by {
        let tr = a.tracks@[i];
        assert(b.track_ok(b.tracks@[i]));
        assert(a.store.types@[tr.ty.0 as int].same_schema(b.store.types@[tr.ty.0 as int]));
        assert(a.store.at(tr.ty).tracks@[tr.slot as int].default == b.store.at(
            tr.ty,
        ).tracks@[tr.slot as int].default);
    }
    assert forall|i: int, j: int|
        0 <= i < j < a.tracks@.len() && (#[trigger] a.tracks@[i]).ty == (
        #[trigger] a.tracks@[j]).ty implies a.tracks@[i].slot != a.tracks@[j].slot
        && a.tracks@[i].out != a.tracks@[j].out by {
        assert(b.tracks@[i].ty == b.tracks@[j].ty);
    }
    assert forall|ty: EntityTypeId, t: int| #[trigger] a.store.slot_known(ty, t) implies exists|
        ti: int,
    |
        0 <= ti < a.tracks@.len() && (#[trigger] a.tracks@[ti]).ty == ty && a.tracks@[ti].slot
            == t by {
        assert(a.store.types@[ty.0 as int].same_schema(b.store.types@[ty.0 as int]));
        assert(b.store.slot_known(ty, t));
    }
    assert forall|i: int| 0 <= i < a.fades@.len() implies a.store.field_known(
        (#[trigger] a.fades@[i]).ty,
        a.fades@[i].field,
    ) && positive(a.fades@[i].duration) by {
        let f = b.fades@[i];
        assert(b.store.field_known(f.ty, f.field));
        assert(a.store.types@[f.ty.0 as int].same_schema(b.store.types@[f.ty.0 as int]));
    }
    if a.spatial is Some {
        assert forall|k: int| 0 <= k < a.spatial->0.culled@.len() implies a.culled_tracked(
            #[trigger] a.spatial->0.culled@[k],
        ) by {
            assert(b.culled_tracked(b.spatial->0.culled@[k]));
            let c = b.spatial->0.culled@[k];
            let ti = choose|ti: int|
                0 <= ti < b.tracks@.len() && (#[trigger] b.tracks@[ti]).ty == c.ty
                    && b.tracks@[ti].sim_field == c.translation_field && b.tracks@[ti].slot
                    == c.track_slot;
            assert(a.tracks@[ti].ty == c.ty);
            assert(a.track_ok(a.tracks@[ti]));
            assert(a.store.types@[c.ty.0 as int].same_schema(b.store.types@[c.ty.0 as int]));
        }
    }
}

/// The last of some births under the id of `i`.
pub open spec fn last_birth(births: Seq<InstanceId>, i: InstanceId) -> Option<InstanceId>
    decreases births.len(),
{
    if births.len() == 0 {
        None
    } else if same_slot(births.last(), i) {
        Some(births.last())
    } else {
        last_birth(births.drop_last(), i)
    }
}

impl Mirror {
    /// `self` is `before` once `births` have come: each holds its row alone, with every
    /// field and mirror at its default, and stands in the grid where its type is culled.
    /// Whoever had the row before has left every list.
    pub open spec fn after_births(self, before: Mirror, births: Seq<InstanceId>) -> bool {
        &&& self.same_setup(before)
        &&& self.same_view(before)
        &&& forall|i: InstanceId| #[trigger]
            self.store.present(i) <==> match last_birth(births, i) {
                Some(b) => i == b,
                None => before.store.present(i),
            }
        &&& forall|i: InstanceId, f: RFieldId| #[trigger]
            self.store.value(i, f) == match last_birth(births, i) {
                Some(b) => if i == b && self.store.field_known(i.ty, f) {
                    self.store.at(i.ty).render_defaults@[f.0 as int]@
                } else {
                    Val::Null
                },
                None => before.store.value(i, f),
            }
        &&& forall|i: InstanceId, t: int|
            self.store.present(i) && self.store.slot_known(i.ty, t) ==> #[trigger] self.store.pair(
                i,
                t,
            ) == match last_birth(births, i) {
                Some(b) => (
                    self.store.at(i.ty).tracks@[t].default@,
                    self.store.at(i.ty).tracks@[t].default@,
                ),
                None => before.store.pair(i, t),
            }
        &&& self.dying@ == kept(
            before.dying@,
            |d: (InstanceId, F64)| last_birth(births, d.0) is None,
        )
        &&& self.active@ == kept(
            before.active@,
            |a: (InstanceId, usize)| last_birth(births, a.0) is None,
        )
        &&& forall|i: InstanceId| #[trigger]
            self.grid_at(i) == match last_birth(births, i) {
                Some(b) => match before.culling(i.ty) {
                    Some(c) => if i == b {
                        before.place(before.default_of(i.ty, c.translation_field))
                    } else {
                        None
                    },
                    None => None,
                },
                None => before.grid_at(i),
            }
    }

    /// One instance appears.
    fn birth(&mut self, inst: InstanceId)
        requires
            old(self).wf(),
            old(self).store.known(inst.ty),
            inst.id < u32::MAX,
        ensures
            final(self).wf(),
            final(self).same_setup(*old(self)),
            final(self).same_view(*old(self)),
            final(self).store.rows_kept(old(self).store, inst),
            forall|i: InstanceId|
                same_slot(i, inst) ==> (#[trigger] final(self).store.present(i) <==> i == inst),
            forall|f: RFieldId|
                final(self).store.field_known(inst.ty, f) ==> #[trigger] final(self).store.value(
                    inst,
                    f,
                ) == final(self).store.at(inst.ty).render_defaults@[f.0 as int]@,
            forall|t: int|
                final(self).store.slot_known(inst.ty, t) ==> #[trigger] final(self).store.pair(
                    inst,
                    t,
                ) == (
                    final(self).store.at(inst.ty).tracks@[t].default@,
                    final(self).store.at(inst.ty).tracks@[t].default@,
                ),
            final(self).dying@ == kept(
                old(self).dying@,
                |d: (InstanceId, F64)| !same_slot(d.0, inst),
            ),
            final(self).active@ == kept(
                old(self).active@,
                |a: (InstanceId, usize)| !same_slot(a.0, inst),
            ),
            forall|i: InstanceId| #[trigger]
                final(self).grid_at(i) == (if same_slot(i, inst) {
                    match old(self).culling(i.ty) {
                        Some(c) => if i == inst {
                            old(self).place(old(self).default_of(i.ty, c.translation_field))
                        } else {
                            None
                        },
                        None => None,
                    }
                } else {
                    old(self).grid_at(i)
                }),
    {
        let ghost before = *self;
        self.clear_slot(inst);
        let ghost cleared = *self;
        self.store.birth(inst);
        let ghost born = self.store;
        self.dying = dying_elsewhere(&self.dying, inst);
        self.active = active_elsewhere(&self.active, inst);
        proof {
            lemma_active_kept(
                before,
                self.active@,
                |a: (InstanceId, usize)| !same_slot(a.0, inst),
            );
            lemma_dying_kept(before.dying@, |d: (InstanceId, F64)| !same_slot(d.0, inst));
            lemma_setup_kept(*self, before);
        }
        let ghost mid = *self;
        let mut ti: usize = 0;
        while ti < self.tracks.len()
            invariant
                ti <= self.tracks@.len(),
                mid.wf(),
                mid.store == born,
                born.present(inst),
                forall|f: RFieldId|
                    born.field_known(inst.ty, f) ==> #[trigger] born.value(inst, f) == born.at(
                        inst.ty,
                    ).render_defaults@[f.0 as int]@,
                *self == (Mirror { store: self.store, ..mid }),
                self.store.wf(),
                crate::render::writes::only_values(self.store, born),
                forall|i: InstanceId, f: RFieldId| #[trigger]
                    self.store.value(i, f) == born.value(i, f),
            decreases self.tracks@.len() - ti,
        {
            let ghost s0 = self.store;
            let tr = self.tracks[ti];
            proof {
                assert(mid.track_ok(mid.tracks@[ti as int]));
            }
            if tr.ty == inst.ty {
                let d = self.default_val(tr.ty, tr.sim_field);
                let v = tr.kind.out_default(&d);
                self.store.write_render(inst, tr.out, v);
                proof {
                    assert(born.value(inst, tr.out) == v@);
                    lemma_only_values_step(self.store, s0, born);
                }
            }
            ti = ti + 1;
        }
        proof {
            lemma_only_values_rows(self.store, born, before.store, inst);
            lemma_setup_kept(*self, mid);
        }
        let ghost filled = *self;
        proof {
            assert(filled.culling(inst.ty) == before.culling(inst.ty));
            assert(forall|v: Val| #[trigger] filled.place(v) == before.place(v));
            assert(forall|f: FieldId| #[trigger]
                filled.default_of(inst.ty, f) == before.default_of(inst.ty, f));
            assert(forall|i: InstanceId| #[trigger] filled.grid_at(i) == cleared.grid_at(i));
        }
        if let Some(c) = self.culling_of(inst.ty) {
            let d = self.default_val(inst.ty, c.translation_field);
            self.put(inst, &d);
        }
    }

    /// Instances appear, in order.
    pub fn take_births(&mut self, births: &Vec<InstanceId>)
        requires
            old(self).wf(),
            forall|k: int|
                0 <= k < births@.len() ==> old(self).store.known((#[trigger] births@[k]).ty)
                    && births@[k].id < u32::MAX,
        ensures
            final(self).wf(),
            final(self).after_births(*old(self), births@),
    {
        let ghost before = *self;
        let mut k: usize = 0;
        proof {
            let none = births@.take(0);
            assert(none =~= Seq::empty());
            lemma_kept_all(before.dying@, |d: (InstanceId, F64)| last_birth(none, d.0) is None);
            lemma_kept_all(before.active@, |a: (InstanceId, usize)| last_birth(none, a.0) is None);
        }
        while k < births.len()
            invariant
                k <= births@.len(),
                before.wf(),
                self.wf(),
                forall|j: int|
                    0 <= j < births@.len() ==> before.store.known((#[trigger] births@[j]).ty)
                        && births@[j].id < u32::MAX,
                self.after_births(before, births@.take(k as int)),
            decreases births@.len() - k,
        {
            let ghost mid = *self;
            let inst = births[k];
            assert(before.store.known(births@[k as int].ty));
            self.birth(inst);
            proof {
                lemma_birth_step(*self, mid, before, births@, k as int);
            }
            k = k + 1;
        }
        assert(births@.take(births@.len() as int) =~= births@);
    }
}

pub proof fn lemma_only_values_step(a: RenderStore, b: RenderStore, c: RenderStore)
    requires
        crate::render::writes::only_values(b, c),
        a.same_schema(b),
        forall|i: InstanceId| #[trigger] a.present(i) <==> b.present(i),
        forall|i: InstanceId, t: int|
            a.present(i) && a.slot_known(i.ty, t) ==> #[trigger] a.pair(i, t) == b.pair(i, t),
    ensures
        crate::render::writes::only_values(a, c),
{
    assert forall|t: int| 0 <= t < a.types@.len() implies (#[trigger] a.types@[t]).same_schema(
        c.types@[t],
    ) by {
        assert(b.types@[t].same_schema(c.types@[t]));
    }
    assert forall|i: InstanceId, t: int|
        a.present(i) && a.slot_known(i.ty, t) implies #[trigger] a.pair(i, t) == c.pair(i, t) by {
        assert(b.present(i));
        assert(a.types@[i.ty.0 as int].same_schema(b.types@[i.ty.0 as int]));
        assert(b.slot_known(i.ty, t));
        assert(a.pair(i, t) == b.pair(i, t));
        assert(b.pair(i, t) == c.pair(i, t));
    }
}

proof fn lemma_only_values_rows(
    a: RenderStore,
    born: RenderStore,
    before: RenderStore,
    inst: InstanceId,
)
    requires
        crate::render::writes::only_values(a, born),
        forall|i: InstanceId, f: RFieldId| #[trigger] a.value(i, f) == born.value(i, f),
        born.same_schema(before),
        born.rows_kept(before, inst),
    ensures
        a.same_schema(before),
        a.rows_kept(before, inst),
        forall|f: RFieldId| #[trigger] a.field_known(inst.ty, f) <==> born.field_known(inst.ty, f),
        forall|t: int| #[trigger] a.slot_known(inst.ty, t) <==> born.slot_known(inst.ty, t),
{
    assert forall|t: int| 0 <= t < a.types@.len() implies (#[trigger] a.types@[t]).same_schema(
        before.types@[t],
    ) by {
        assert(born.types@[t].same_schema(before.types@[t]));
    }
    assert forall|i: InstanceId, t: int|
        (i.ty != inst.ty || i.id != inst.id) && a.present(i) && a.slot_known(i.ty, t) implies
        #[trigger] a.pair(i, t) == before.pair(i, t) by {
        assert(born.present(i));
        assert(a.types@[i.ty.0 as int].same_schema(born.types@[i.ty.0 as int]));
        assert(born.slot_known(i.ty, t));
        assert(a.pair(i, t) == born.pair(i, t));
        assert(born.pair(i, t) == before.pair(i, t));
    }
    if a.known(inst.ty) {
        assert(a.types@[inst.ty.0 as int].same_schema(born.types@[inst.ty.0 as int]));
    }
}

proof fn lemma_birth_step(
    after: Mirror,
    mid: Mirror,
    before: Mirror,
    births: Seq<InstanceId>,
    k: int,
)
    requires
        0 <= k < births.len(),
        mid.after_births(before, births.take(k)),
        mid.store.known(births[k].ty),
        after.same_setup(mid),
        after.same_view(mid),
        after.store.rows_kept(mid.store, births[k]),
        forall|i: InstanceId|
            same_slot(i, births[k]) ==> (#[trigger] after.store.present(i) <==> i == births[k]),
        forall|f: RFieldId|
            after.store.field_known(births[k].ty, f) ==> #[trigger] after.store.value(births[k], f)
                == after.store.at(births[k].ty).render_defaults@[f.0 as int]@,
        forall|t: int|
            after.store.slot_known(births[k].ty, t) ==> #[trigger] after.store.pair(births[k], t)
                == (
                after.store.at(births[k].ty).tracks@[t].default@,
                after.store.at(births[k].ty).tracks@[t].default@,
            ),
        after.dying@ == kept(mid.dying@, |d: (InstanceId, F64)| !same_slot(d.0, births[k])),
        after.active@ == kept(mid.active@, |a: (InstanceId, usize)| !same_slot(a.0, births[k])),
        forall|i: InstanceId| #[trigger]
            after.grid_at(i) == (if same_slot(i, births[k]) {
                match mid.culling(i.ty) {
                    Some(c) => if i == births[k] {
                        mid.place(mid.default_of(i.ty, c.translation_field))
                    } else {
                        None
                    },
                    None => None,
                }
            } else {
                mid.grid_at(i)
            }),
    ensures
        after.after_births(before, births.take(k + 1)),
{
    let inst = births[k];
    let done = births.take(k);
    let next = births.take(k + 1);
    assert(next.drop_last() =~= done);
    assert(next.last() == inst);
    assert forall|i: InstanceId| #[trigger] last_birth(next, i) == (if same_slot(inst, i) {
        Some(inst)
    } else {
        last_birth(done, i)
    }) by {}
    assert(after.store.same_schema(before.store)) by {
        assert forall|t: int| 0 <= t < after.store.types@.len() implies (
        #[trigger] after.store.types@[t]).same_schema(before.store.types@[t]) by {
            assert(mid.store.types@[t].same_schema(before.store.types@[t]));
        }
    }
    assert(forall|ty: EntityTypeId| #[trigger] mid.culling(ty) == before.culling(ty));
    assert(forall|v: Val| #[trigger] mid.place(v) == before.place(v));
    assert forall|ty: EntityTypeId, f: FieldId| #[trigger] mid.default_of(ty, f)
        == before.default_of(ty, f) by {}
    assert forall|i: InstanceId, f: RFieldId| #[trigger] after.store.value(i, f) == match last_birth(
        next,
        i,
    ) {
        Some(b) => if i == b && after.store.field_known(i.ty, f) {
            after.store.at(i.ty).render_defaults@[f.0 as int]@
        } else {
            Val::Null
        },
        None => before.store.value(i, f),
    } by {
        if same_slot(inst, i) {
            if i == inst {
                if !after.store.field_known(i.ty, f) {
                    assert(after.store.value(i, f) == Val::Null);
                }
            } else {
                assert(!after.store.present(i));
            }
        } else {
            assert(after.store.value(i, f) == mid.store.value(i, f));
            if i.ty.0 < after.store.types@.len() {
                assert(after.store.types@[i.ty.0 as int].same_schema(
                    mid.store.types@[i.ty.0 as int],
                ));
            }
        }
    }
    assert forall|i: InstanceId, t: int|
        after.store.present(i) && after.store.slot_known(i.ty, t) implies #[trigger] after.store.pair(
        i,
        t,
    ) == match last_birth(next, i) {
        Some(b) => (
            after.store.at(i.ty).tracks@[t].default@,
            after.store.at(i.ty).tracks@[t].default@,
        ),
        None => before.store.pair(i, t),
    } by {
        assert(after.store.types@[i.ty.0 as int].same_schema(mid.store.types@[i.ty.0 as int]));
        if same_slot(inst, i) {
            assert(i == inst);
        } else {
            assert(mid.store.present(i));
            assert(mid.store.slot_known(i.ty, t));
            assert(after.store.pair(i, t) == mid.store.pair(i, t));
            assert(after.store.at(i.ty).tracks@[t].default == mid.store.at(
                i.ty,
            ).tracks@[t].default);
        }
    }
    let pd = |d: (InstanceId, F64)| last_birth(done, d.0) is None;
    let qd = |d: (InstanceId, F64)| !same_slot(d.0, inst);
    lemma_kept_twice(before.dying@, pd, qd);
    lemma_kept_same(
        before.dying@,
        |d: (InstanceId, F64)| pd(d) && qd(d),
        |d: (InstanceId, F64)| last_birth(next, d.0) is None,
    );
    let pa = |a: (InstanceId, usize)| last_birth(done, a.0) is None;
    let qa = |a: (InstanceId, usize)| !same_slot(a.0, inst);
    lemma_kept_twice(before.active@, pa, qa);
    lemma_kept_same(
        before.active@,
        |a: (InstanceId, usize)| pa(a) && qa(a),
        |a: (InstanceId, usize)| last_birth(next, a.0) is None,
    );
}

}
