//! The render side's own data: its fields, and the mirrors of tracked simulation fields.
//!
//! A row is addressed by the simulation's id, and its generation tells an instance from an
//! earlier holder of the id. Rows follow the births and deaths of the simulation; the render
//! side creates and destroys none of its own accord.
use crate::column::Column;
use crate::entity::EntityTypeId;
use crate::entity::FieldId;
use crate::entity::InstanceId;
use crate::genslots::law_live_slots_are_the_occupied_ones;
use crate::genslots::live_upto;
use crate::genslots::slot_matches;
use crate::genslots::GenSlots;
use crate::genslots::Slot;
use crate::genslots::VACANT;
use crate::value::Val;
use crate::value::Value;
use vstd::prelude::*;

verus! {

/// A field of the render side.
#[derive(Clone, Copy, Debug, PartialEq, Eq, Structural, Hash, PartialOrd, Ord)]
pub struct RFieldId(pub u32);

/// The mirror of a simulation field: its value before and after the last simulation frame.
pub struct TrackCol {
    pub sim_field: FieldId,
    pub default: Value,
    pub prev: Column,
    pub cur: Column,
}

/// The data of one type.
pub struct RenderTypeStore {
    pub render_defaults: Vec<Value>,
    pub render_cols: Vec<Column>,
    pub tracks: Vec<TrackCol>,
    pub slots: GenSlots,
}

impl RenderTypeStore {
    pub open spec fn rows(self) -> nat {
        self.slots@.len()
    }

    pub open spec fn wf(self) -> bool {
        &&& self.render_defaults@.len() == self.render_cols@.len()
        &&& self.render_cols@.len() <= u32::MAX
        &&& self.rows() <= u32::MAX
        &&& forall|f: int|
            0 <= f < self.render_cols@.len() ==> (#[trigger] self.render_cols@[f])@.len()
                == self.rows()
        &&& forall|t: int|
            0 <= t < self.tracks@.len() ==> (#[trigger] self.tracks@[t]).prev@.len() == self.rows()
                && self.tracks@[t].cur@.len() == self.rows()
    }

    pub open spec fn present(self, id: u32, generation: u64) -> bool {
        slot_matches(self.slots@, id as int, generation)
    }

    pub open spec fn read(self, id: u32, generation: u64, f: int) -> Val {
        if self.present(id, generation) && 0 <= f < self.render_cols@.len() {
            self.render_cols@[f]@[id as int]
        } else {
            Val::Null
        }
    }

    pub open spec fn prev(self, id: u32, t: int) -> Val {
        self.tracks@[t].prev@[id as int]
    }

    pub open spec fn cur(self, id: u32, t: int) -> Val {
        self.tracks@[t].cur@[id as int]
    }

    /// Fields and tracks are those of `other`.
    pub open spec fn same_schema(self, other: RenderTypeStore) -> bool {
        &&& self.render_defaults@ == other.render_defaults@
        &&& self.render_cols@.len() == other.render_cols@.len()
        &&& self.tracks@.len() == other.tracks@.len()
        &&& forall|t: int|
            0 <= t < self.tracks@.len() ==> (#[trigger] self.tracks@[t]).default
                == other.tracks@[t].default && self.tracks@[t].sim_field
                == other.tracks@[t].sim_field
    }

    /// Every row but `id` is as in `other`.
    pub open spec fn rows_kept(self, other: RenderTypeStore, id: u32) -> bool {
        &&& forall|i: u32, g: u64|
            i != id ==> (#[trigger] self.present(i, g) <==> other.present(i, g))
        &&& forall|i: u32, g: u64, f: int|
            i != id ==> #[trigger] self.read(i, g, f) == other.read(i, g, f)
        &&& forall|i: u32, g: u64, t: int|
            #![trigger self.present(i, g), self.prev(i, t)]
            #![trigger self.present(i, g), self.cur(i, t)]
            i != id && self.present(i, g) && 0 <= t < self.tracks@.len() ==> self.prev(i, t)
                == other.prev(i, t) && self.cur(i, t) == other.cur(i, t)
    }

    /// Makes room for row `id`.
    fn ensure_row(&mut self, id: u32)
        requires
            old(self).wf(),
            id < u32::MAX,
        ensures
            final(self).wf(),
            final(self).same_schema(*old(self)),
            id < final(self).rows(),
            final(self).slots@ == (if id < old(self).rows() {
                old(self).slots@
            } else {
                old(self).slots@ + Seq::new(
                    (id + 1 - old(self).rows()) as nat,
                    |i: int| Slot { generation: VACANT, live: false },
                )
            }),
            forall|f: int, r: int|
                0 <= f < final(self).render_cols@.len() && 0 <= r < old(self).rows()
                    ==> #[trigger] final(self).render_cols@[f]@[r] == old(self).render_cols@[f]@[r],
            forall|t: int, r: int|
                #![trigger final(self).tracks@[t].prev@[r]]
                #![trigger final(self).tracks@[t].cur@[r]]
                0 <= t < final(self).tracks@.len() && 0 <= r < old(self).rows() ==> final(self).tracks@[t].prev@[r] == old(self).tracks@[t].prev@[r] && final(self).tracks@[t].cur@[r] == old(self).tracks@[t].cur@[r],
    {
        let ghost before = *self;
        let row = id as usize;
        if row < self.slots.len() {
            return;
        }
        let n: usize = row + 1;
        let mut i: usize = 0;
        while i < self.render_cols.len()
            invariant
                n == id + 1,
                before.rows() <= n,
                before.wf(),
                self.slots == before.slots,
                self.tracks == before.tracks,
                self.render_defaults == before.render_defaults,
                self.render_cols@.len() == before.render_cols@.len(),
                i <= self.render_cols@.len(),
                forall|f: int|
                    0 <= f < i ==> (#[trigger] self.render_cols@[f])@ == crate::column::resized(
                        before.render_cols@[f]@,
                        n as nat,
                        before.render_defaults@[f]@,
                    ),
                forall|f: int|
                    i <= f < self.render_cols@.len() ==> (#[trigger] self.render_cols@[f])
                        == before.render_cols@[f],
            decreases self.render_cols@.len() - i,
        {
            self.render_cols[i].resize(n, &self.render_defaults[i]);
            i = i + 1;
        }
        let mut k: usize = 0;
        while k < self.tracks.len()
            invariant
                n == id + 1,
                before.rows() <= n,
                before.wf(),
                self.slots == before.slots,
                self.render_defaults == before.render_defaults,
                self.render_cols@.len() == before.render_cols@.len(),
                forall|f: int|
                    0 <= f < self.render_cols@.len() ==> (#[trigger] self.render_cols@[f])@
                        == crate::column::resized(
                        before.render_cols@[f]@,
                        n as nat,
                        before.render_defaults@[f]@,
                    ),
                self.tracks@.len() == before.tracks@.len(),
                k <= self.tracks@.len(),
                forall|t: int|
                    0 <= t < k ==> {
                        &&& (#[trigger] self.tracks@[t]).default == before.tracks@[t].default
                        &&& self.tracks@[t].sim_field == before.tracks@[t].sim_field
                        &&& self.tracks@[t].prev@ == crate::column::resized(
                            before.tracks@[t].prev@,
                            n as nat,
                            before.tracks@[t].default@,
                        )
                        &&& self.tracks@[t].cur@ == crate::column::resized(
                            before.tracks@[t].cur@,
                            n as nat,
                            before.tracks@[t].default@,
                        )
                    },
                forall|t: int|
                    k <= t < self.tracks@.len() ==> (#[trigger] self.tracks@[t])
                        == before.tracks@[t],
            decreases self.tracks@.len() - k,
        {
            let d = self.tracks[k].default.clone();
            self.tracks[k].prev.resize(n, &d);
            self.tracks[k].cur.resize(n, &d);
            k = k + 1;
        }
        self.slots.grow_to(n);
    }

    /// Gives every field of a row its default.
    fn reset_row(&mut self, id: u32)
        requires
            old(self).wf(),
            id < old(self).rows(),
        ensures
            final(self).wf(),
            final(self).same_schema(*old(self)),
            final(self).slots == old(self).slots,
            forall|f: int|
                0 <= f < final(self).render_cols@.len() ==> (
                #[trigger] final(self).render_cols@[f])@ == old(self).render_cols@[f]@.update(
                    id as int,
                    old(self).render_defaults@[f]@,
                ),
            forall|t: int|
                0 <= t < final(self).tracks@.len() ==> (#[trigger] final(self).tracks@[t]).prev@
                    == old(self).tracks@[t].prev@.update(
                    id as int,
                    old(self).tracks@[t].default@,
                ) && final(self).tracks@[t].cur@ == old(self).tracks@[t].cur@.update(
                    id as int,
                    old(self).tracks@[t].default@,
                ),
    {
        let ghost before = *self;
        let row = id as usize;
        let mut i: usize = 0;
        while i < self.render_cols.len()
            invariant
                row == id,
                id < before.rows(),
                before.wf(),
                self.slots == before.slots,
                self.tracks == before.tracks,
                self.render_defaults == before.render_defaults,
                self.render_cols@.len() == before.render_cols@.len(),
                i <= self.render_cols@.len(),
                forall|f: int|
                    0 <= f < i ==> (#[trigger] self.render_cols@[f])@
                        == before.render_cols@[f]@.update(id as int, before.render_defaults@[f]@),
                forall|f: int|
                    i <= f < self.render_cols@.len() ==> (#[trigger] self.render_cols@[f])
                        == before.render_cols@[f],
            decreases self.render_cols@.len() - i,
        {
            let _ = self.render_cols[i].set(row, self.render_defaults[i].clone());
            i = i + 1;
        }
        let mut k: usize = 0;
        while k < self.tracks.len()
            invariant
                row == id,
                id < before.rows(),
                before.wf(),
                self.slots == before.slots,
                self.render_defaults == before.render_defaults,
                self.render_cols@.len() == before.render_cols@.len(),
                forall|f: int|
                    0 <= f < self.render_cols@.len() ==> (#[trigger] self.render_cols@[f])@
                        == before.render_cols@[f]@.update(id as int, before.render_defaults@[f]@),
                self.tracks@.len() == before.tracks@.len(),
                k <= self.tracks@.len(),
                forall|t: int|
                    0 <= t < k ==> {
                        &&& (#[trigger] self.tracks@[t]).default == before.tracks@[t].default
                        &&& self.tracks@[t].sim_field == before.tracks@[t].sim_field
                        &&& self.tracks@[t].prev@ == before.tracks@[t].prev@.update(
                            id as int,
                            before.tracks@[t].default@,
                        )
                        &&& self.tracks@[t].cur@ == before.tracks@[t].cur@.update(
                            id as int,
                            before.tracks@[t].default@,
                        )
                    },
                forall|t: int|
                    k <= t < self.tracks@.len() ==> (#[trigger] self.tracks@[t])
                        == before.tracks@[t],
            decreases self.tracks@.len() - k,
        {
            let d = self.tracks[k].default.clone();
            let e = self.tracks[k].default.clone();
            let _ = self.tracks[k].prev.set(row, d);
            let _ = self.tracks[k].cur.set(row, e);
            k = k + 1;
        }
    }

    /// An instance appears in its row.
    fn birth(&mut self, id: u32, generation: u64)
        requires
            old(self).wf(),
            id < u32::MAX,
        ensures
            final(self).wf(),
            final(self).same_schema(*old(self)),
            final(self).rows_kept(*old(self), id),
            forall|g: u64| #[trigger] final(self).present(id, g) <==> g == generation,
            forall|f: int|
                0 <= f < final(self).render_cols@.len() ==> #[trigger] final(self).read(
                    id,
                    generation,
                    f,
                ) == final(self).render_defaults@[f]@,
            forall|t: int|
                #![trigger final(self).prev(id, t)]
                #![trigger final(self).cur(id, t)]
                0 <= t < final(self).tracks@.len() ==> final(self).prev(id, t) == final(self).tracks@[t].default@ && final(self).cur(id, t) == final(self).tracks@[t].default@,
    {
        let ghost before = *self;
        self.ensure_row(id);
        let ghost mid = *self;
        self.slots.activate(id as usize, generation);
        self.reset_row(id);
        proof {
            assert forall|i: u32, g: u64| i != id implies (#[trigger] self.present(i, g)
                <==> before.present(i, g)) by {}
            assert forall|i: u32, g: u64, f: int| i != id implies #[trigger] self.read(i, g, f)
                == before.read(i, g, f) by {
                if before.present(i, g) && 0 <= f < self.render_cols@.len() {
                    assert(mid.render_cols@[f]@[i as int] == before.render_cols@[f]@[i as int]);
                }
                assert(self.present(i, g) <==> before.present(i, g));
            }
            assert forall|i: u32, g: u64, t: int|
                #![trigger self.present(i, g), self.prev(i, t)]
                #![trigger self.present(i, g), self.cur(i, t)]
                i != id && self.present(i, g) && 0 <= t < self.tracks@.len() implies self.prev(i, t)
                == before.prev(i, t) && self.cur(i, t) == before.cur(i, t) by {
                assert(before.present(i, g));
                assert(mid.tracks@[t].prev@[i as int] == before.tracks@[t].prev@[i as int]);
                assert(mid.tracks@[t].cur@[i as int] == before.tracks@[t].cur@[i as int]);
            }
        }
    }

    /// An instance leaves its row.
    fn death(&mut self, id: u32, generation: u64)
        requires
            old(self).wf(),
        ensures
            final(self).wf(),
            final(self).same_schema(*old(self)),
            final(self).rows_kept(*old(self), id),
            !final(self).present(id, generation),
            old(self).present(id, generation) ==> forall|g: u64| !#[trigger] final(self).present(
                id,
                g,
            ),
            !old(self).present(id, generation) ==> *final(self) == *old(self),
    {
        let ghost before = *self;
        if self.slots.matches(id as usize, generation) {
            self.slots.kill(id as usize);
            self.reset_row(id);
            proof {
                assert forall|i: u32, g: u64, f: int| i != id implies #[trigger] self.read(i, g, f)
                    == before.read(i, g, f) by {
                    assert(self.present(i, g) <==> before.present(i, g));
                }
            }
        }
    }
}

/// The render side's data: one mirror per simulation type.
pub struct RenderStore {
    pub types: Vec<RenderTypeStore>,
}

impl RenderStore {
    pub open spec fn wf(self) -> bool {
        &&& self.types@.len() <= u32::MAX
        &&& forall|t: int| 0 <= t < self.types@.len() ==> (#[trigger] self.types@[t]).wf()
    }

    pub open spec fn known(self, ty: EntityTypeId) -> bool {
        ty.0 < self.types@.len()
    }

    pub open spec fn at(self, ty: EntityTypeId) -> RenderTypeStore {
        self.types@[ty.0 as int]
    }

    pub open spec fn field_known(self, ty: EntityTypeId, f: RFieldId) -> bool {
        self.known(ty) && f.0 < self.at(ty).render_cols@.len()
    }

    pub open spec fn slot_known(self, ty: EntityTypeId, slot: int) -> bool {
        self.known(ty) && 0 <= slot < self.at(ty).tracks@.len()
    }

    /// The instance is there: alive in the simulation, or fading.
    pub open spec fn present(self, inst: InstanceId) -> bool {
        self.known(inst.ty) && self.at(inst.ty).present(inst.id, inst.generation)
    }

    pub open spec fn value(self, inst: InstanceId, f: RFieldId) -> Val {
        if self.known(inst.ty) {
            self.at(inst.ty).read(inst.id, inst.generation, f.0 as int)
        } else {
            Val::Null
        }
    }

    /// The mirrored values of a track, before and after.
    pub open spec fn pair(self, inst: InstanceId, slot: int) -> (Val, Val) {
        (self.at(inst.ty).prev(inst.id, slot), self.at(inst.ty).cur(inst.id, slot))
    }

    /// Fields and tracks are those of `other`.
    pub open spec fn same_schema(self, other: RenderStore) -> bool {
        &&& self.types@.len() == other.types@.len()
        &&& forall|t: int|
            0 <= t < self.types@.len() ==> (#[trigger] self.types@[t]).same_schema(other.types@[t])
    }

    /// Everything but the row of `inst` is as in `other`.
    pub open spec fn rows_kept(self, other: RenderStore, inst: InstanceId) -> bool {
        &&& forall|i: InstanceId|
            i.ty != inst.ty || i.id != inst.id ==> (#[trigger] self.present(i) <==> other.present(
                i,
            ))
        &&& forall|i: InstanceId, f: RFieldId|
            i.ty != inst.ty || i.id != inst.id ==> #[trigger] self.value(i, f) == other.value(i, f)
        &&& forall|i: InstanceId, t: int|
            (i.ty != inst.ty || i.id != inst.id) && self.present(i) && self.slot_known(i.ty, t)
                ==> #[trigger] self.pair(i, t) == other.pair(i, t)
    }

    /// The instances of a type that are there, in the order of their ids.
    pub open spec fn live(self, ty: EntityTypeId) -> Seq<InstanceId> {
        let l = live_upto(self.at(ty).slots@, self.at(ty).rows() as int);
        Seq::new(
            l.len(),
            |i: int| InstanceId { ty, id: l[i].0 as u32, generation: l[i].1 },
        )
    }

    /// An empty mirror for each of `n` types.
    pub fn new(n: usize) -> (r: RenderStore)
        requires
            n <= u32::MAX,
        ensures
            r.wf(),
            r.types@.len() == n,
            forall|t: int|
                0 <= t < n ==> (#[trigger] r.types@[t]).rows() == 0 && r.types@[t].tracks@.len()
                    == 0 && r.types@[t].render_cols@.len() == 0,
    {
        let mut types: Vec<RenderTypeStore> = Vec::new();
        while types.len() < n
            invariant
                types@.len() <= n <= u32::MAX,
                forall|t: int|
                    0 <= t < types@.len() ==> (#[trigger] types@[t]).wf() && types@[t].rows() == 0
                        && types@[t].tracks@.len() == 0 && types@[t].render_cols@.len() == 0,
            decreases n - types@.len(),
        {
            types.push(
                RenderTypeStore {
                    render_defaults: Vec::new(),
                    render_cols: Vec::new(),
                    tracks: Vec::new(),
                    slots: GenSlots::new(),
                },
            );
        }
        RenderStore { types }
    }

    pub fn has_type(&self, ty: EntityTypeId) -> (r: bool)
        ensures
            r == self.known(ty),
    {
        (ty.0 as usize) < self.types.len()
    }

    pub fn has_render_field(&self, ty: EntityTypeId, f: RFieldId) -> (r: bool)
        ensures
            r == self.field_known(ty, f),
    {
        (ty.0 as usize) < self.types.len() && (f.0 as usize)
            < self.types[ty.0 as usize].render_cols.len()
    }

    /// What adding a field or a track to a type leaves as it was.
    pub open spec fn extended(self, other: RenderStore, ty: EntityTypeId) -> bool {
        &&& self.types@.len() == other.types@.len()
        &&& forall|t: int|
            0 <= t < self.types@.len() && t != ty.0 ==> #[trigger] self.types@[t] == other.types@[t]
        &&& self.at(ty).slots == other.at(ty).slots
    }

    /// Adds a render field with this default.
    pub fn add_render_field(&mut self, ty: EntityTypeId, default: Value) -> (r: RFieldId)
        requires
            old(self).wf(),
            old(self).known(ty),
            old(self).at(ty).render_cols@.len() < u32::MAX,
        ensures
            final(self).wf(),
            final(self).extended(*old(self), ty),
            r.0 == old(self).at(ty).render_cols@.len(),
            final(self).at(ty).render_defaults@ == old(self).at(ty).render_defaults@.push(default),
            final(self).at(ty).tracks == old(self).at(ty).tracks,
            final(self).at(ty).render_cols@.len() == old(self).at(ty).render_cols@.len() + 1,
            final(self).at(ty).render_cols@.drop_last() == old(self).at(ty).render_cols@,
            final(self).at(ty).render_cols@.last()@ == Seq::new(
                old(self).at(ty).rows(),
                |i: int| default@,
            ),
    {
        let ghost before = *self;
        let t = ty.0 as usize;
        let n = self.types[t].render_cols.len();
        let rows = self.types[t].slots.len();
        let col = Column::with_default(&default, rows);
        let ghost cols0 = self.types@[t as int].render_cols@;
        self.types[t].render_cols.push(col);
        self.types[t].render_defaults.push(default);
        proof {
            assert(self.at(ty).render_cols@.drop_last() =~= cols0);
            let a = self.at(ty);
            assert forall|f: int| 0 <= f < a.render_cols@.len() implies (
            #[trigger] a.render_cols@[f])@.len() == a.rows() by {
                if f < cols0.len() {
                    assert(a.render_cols@[f] == cols0[f]);
                }
            }
            assert(a.wf());
        }
        RFieldId(n as u32)
    }

    /// Adds a mirror of a simulation field.
    pub fn add_track(&mut self, ty: EntityTypeId, sim_field: FieldId, default: Value) -> (r: usize)
        requires
            old(self).wf(),
            old(self).known(ty),
        ensures
            final(self).wf(),
            final(self).extended(*old(self), ty),
            r == old(self).at(ty).tracks@.len(),
            final(self).at(ty).render_defaults == old(self).at(ty).render_defaults,
            final(self).at(ty).render_cols == old(self).at(ty).render_cols,
            final(self).at(ty).tracks@.len() == old(self).at(ty).tracks@.len() + 1,
            final(self).at(ty).tracks@.drop_last() == old(self).at(ty).tracks@,
            final(self).at(ty).tracks@.last().sim_field == sim_field,
            final(self).at(ty).tracks@.last().default == default,
            final(self).at(ty).tracks@.last().prev@ == Seq::new(
                old(self).at(ty).rows(),
                |i: int| default@,
            ),
            final(self).at(ty).tracks@.last().cur@ == Seq::new(
                old(self).at(ty).rows(),
                |i: int| default@,
            ),
    {
        let t = ty.0 as usize;
        let rows = self.types[t].slots.len();
        let slot = self.types[t].tracks.len();
        let prev = Column::with_default(&default, rows);
        let cur = Column::with_default(&default, rows);
        let ghost tracks0 = self.types@[t as int].tracks@;
        self.types[t].tracks.push(TrackCol { sim_field, default, prev, cur });
        proof {
            let a = self.at(ty);
            assert(a.tracks@.drop_last() =~= tracks0);
            assert forall|k: int| 0 <= k < a.tracks@.len() implies (#[trigger] a.tracks@[k]).prev@.len()
                == a.rows() && a.tracks@[k].cur@.len() == a.rows() by {
                if k < tracks0.len() {
                    assert(a.tracks@[k] == tracks0[k]);
                }
            }
            assert(a.wf());
        }
        slot
    }

    pub fn is_present(&self, inst: InstanceId) -> (r: bool)
        ensures
            r == self.present(inst),
    {
        (inst.ty.0 as usize) < self.types.len() && self.types[inst.ty.0 as usize].slots.matches(
            inst.id as usize,
            inst.generation,
        )
    }

    proof fn lemma_one_type(self, before: RenderStore, inst: InstanceId)
        requires
            before.wf(),
            before.known(inst.ty),
            self.types@ == before.types@.update(inst.ty.0 as int, self.types@[inst.ty.0 as int]),
            self.at(inst.ty).wf(),
            self.at(inst.ty).same_schema(before.at(inst.ty)),
            self.at(inst.ty).rows_kept(before.at(inst.ty), inst.id),
        ensures
            self.wf(),
            self.same_schema(before),
            self.rows_kept(before, inst),
    {
        let ty = inst.ty;
        assert forall|i: InstanceId| i.ty != inst.ty || i.id != inst.id implies (
        #[trigger] self.present(i) <==> before.present(i)) by {
            if i.ty == ty {
                assert(self.at(ty).present(i.id, i.generation) <==> before.at(ty).present(
                    i.id,
                    i.generation,
                ));
            } else if i.ty.0 < self.types@.len() {
                assert(self.types@[i.ty.0 as int] == before.types@[i.ty.0 as int]);
            }
        }
        assert forall|i: InstanceId, f: RFieldId|
            i.ty != inst.ty || i.id != inst.id implies #[trigger] self.value(i, f)
            == before.value(i, f) by {
            if i.ty == ty {
                assert(self.at(ty).read(i.id, i.generation, f.0 as int) == before.at(ty).read(
                    i.id,
                    i.generation,
                    f.0 as int,
                ));
            } else if i.ty.0 < self.types@.len() {
                assert(self.types@[i.ty.0 as int] == before.types@[i.ty.0 as int]);
            }
        }
        assert forall|i: InstanceId, t: int|
            (i.ty != inst.ty || i.id != inst.id) && self.present(i) && self.slot_known(
                i.ty,
                t,
            ) implies #[trigger] self.pair(i, t) == before.pair(i, t) by {
            if i.ty == ty {
                assert(self.at(ty).present(i.id, i.generation));
                assert(self.at(ty).prev(i.id, t) == before.at(ty).prev(i.id, t));
            } else {
                assert(self.types@[i.ty.0 as int] == before.types@[i.ty.0 as int]);
            }
        }
    }

    /// An instance appears: its fields get their defaults, and its mirrors those of the
    /// simulation.
    pub fn birth(&mut self, inst: InstanceId)
        requires
            old(self).wf(),
            old(self).known(inst.ty),
            inst.id < u32::MAX,
        ensures
            final(self).wf(),
            final(self).same_schema(*old(self)),
            final(self).rows_kept(*old(self), inst),
            forall|i: InstanceId|
                i.ty == inst.ty && i.id == inst.id ==> (#[trigger] final(self).present(i) <==> i
                    == inst),
            forall|f: RFieldId|
                final(self).field_known(inst.ty, f) ==> #[trigger] final(self).value(inst, f)
                    == final(self).at(inst.ty).render_defaults@[f.0 as int]@,
            forall|t: int|
                final(self).slot_known(inst.ty, t) ==> #[trigger] final(self).pair(inst, t) == (
                    final(self).at(inst.ty).tracks@[t].default@,
                    final(self).at(inst.ty).tracks@[t].default@,
                ),
    {
        let ghost before = *self;
        let t = inst.ty.0 as usize;
        self.types[t].birth(inst.id, inst.generation);
        proof {
            self.lemma_one_type(before, inst);
            assert forall|i: InstanceId| i.ty == inst.ty && i.id == inst.id implies (
            #[trigger] self.present(i) <==> i == inst) by {
                assert(self.at(inst.ty).present(inst.id, i.generation) <==> i.generation
                    == inst.generation);
            }
            assert forall|f: RFieldId| self.field_known(inst.ty, f) implies #[trigger] self.value(
                inst,
                f,
            ) == self.at(inst.ty).render_defaults@[f.0 as int]@ by {
                assert(self.at(inst.ty).read(inst.id, inst.generation, f.0 as int) == self.at(
                    inst.ty,
                ).render_defaults@[f.0 as int]@);
            }
        }
    }

    /// An instance leaves. A reference to none changes nothing.
    pub fn death(&mut self, inst: InstanceId)
        requires
            old(self).wf(),
        ensures
            final(self).wf(),
            final(self).same_schema(*old(self)),
            final(self).rows_kept(*old(self), inst),
            !final(self).present(inst),
            !old(self).present(inst) ==> *final(self) == *old(self),
            old(self).present(inst) ==> forall|i: InstanceId|
                i.ty == inst.ty && i.id == inst.id ==> !#[trigger] final(self).present(i),
    {
        let ghost before = *self;
        if self.is_present(inst) {
            let t = inst.ty.0 as usize;
            self.types[t].death(inst.id, inst.generation);
            proof {
                self.lemma_one_type(before, inst);
                assert forall|i: InstanceId|
                    i.ty == inst.ty && i.id == inst.id implies !#[trigger] self.present(i) by {
                    assert(!self.at(inst.ty).present(inst.id, i.generation));
                }
            }
        }
    }

    pub fn read_render(&self, inst: InstanceId, f: RFieldId) -> (r: Value)
        requires
            self.wf(),
        ensures
            r@ == self.value(inst, f),
    {
        if self.is_present(inst) {
            let t = &self.types[inst.ty.0 as usize];
            if (f.0 as usize) < t.render_cols.len() {
                return t.render_cols[f.0 as usize].get(inst.id as usize);
            }
        }
        Value::Null
    }

    /// Writes a render field. An instance that is not there, or an unknown field, changes
    /// nothing.
    pub fn write_render(&mut self, inst: InstanceId, f: RFieldId, v: Value)
        requires
            old(self).wf(),
        ensures
            final(self).wf(),
            final(self).same_schema(*old(self)),
            forall|i: InstanceId| #[trigger] final(self).present(i) <==> old(self).present(i),
            forall|i: InstanceId, t: int|
                final(self).present(i) && final(self).slot_known(i.ty, t)
                    ==> #[trigger] final(self).pair(i, t) == old(self).pair(i, t),
            forall|i: InstanceId, g: RFieldId| #[trigger]
                final(self).value(i, g) == (if i == inst && g == f && old(self).present(inst)
                    && old(self).field_known(inst.ty, f) {
                    v@
                } else {
                    old(self).value(i, g)
                }),
            forall|ty: EntityTypeId|
                old(self).known(ty) ==> (#[trigger] final(self).at(ty)).slots == old(self).at(
                    ty,
                ).slots,
    {
        let ghost before = *self;
        if self.is_present(inst) {
            let t = inst.ty.0 as usize;
            let fi = f.0 as usize;
            if fi < self.types[t].render_cols.len() {
                let ghost cols0 = self.types@[t as int].render_cols@;
                let _ = self.types[t].render_cols[fi].set(inst.id as usize, v);
                proof {
                    let a = self.at(inst.ty);
                    let b = before.at(inst.ty);
                    assert(a.render_cols@ =~= cols0.update(fi as int, a.render_cols@[fi as int]));
                    assert forall|x: int| 0 <= x < a.render_cols@.len() implies (
                    #[trigger] a.render_cols@[x])@.len() == a.rows() by {
                        if x != fi {
                            assert(a.render_cols@[x] == cols0[x]);
                        }
                    }
                    assert(a.wf());
                    assert forall|x: int| 0 <= x < self.types@.len() && x != t implies (
                    #[trigger] self.types@[x]) == before.types@[x] by {}
                    assert forall|i: InstanceId, g: RFieldId| #[trigger] self.value(i, g) == (
                    if i == inst && g == f {
                        v@
                    } else {
                        before.value(i, g)
                    }) by {
                        if i.ty.0 < self.types@.len() {
                            if i.ty.0 != t {
                                assert(self.types@[i.ty.0 as int] == before.types@[i.ty.0 as int]);
                            } else if g.0 < a.render_cols@.len() && g.0 != fi {
                                assert(a.render_cols@[g.0 as int] == cols0[g.0 as int]);
                            }
                        }
                    }
                    assert forall|i: InstanceId, k: int|
                        self.present(i) && self.slot_known(i.ty, k) implies #[trigger] self.pair(
                        i,
                        k,
                    ) == before.pair(i, k) by {
                        if i.ty.0 != t {
                            assert(self.types@[i.ty.0 as int] == before.types@[i.ty.0 as int]);
                        }
                    }
                    assert forall|i: InstanceId| #[trigger] self.present(i) <==> before.present(
                        i,
                    ) by {
                        if i.ty.0 < self.types@.len() && i.ty.0 != t {
                            assert(self.types@[i.ty.0 as int] == before.types@[i.ty.0 as int]);
                        }
                    }
                }
            }
        }
    }

    /// The mirrored values of a track.
    pub fn track_pair(&self, inst: InstanceId, slot: usize) -> (r: Option<(Value, Value)>)
        requires
            self.wf(),
            self.present(inst) ==> self.slot_known(inst.ty, slot as int),
        ensures
            r is Some <==> self.present(inst),
            r is Some ==> ((r->0).0@, (r->0).1@) == self.pair(inst, slot as int),
    {
        if self.is_present(inst) {
            let tc = &self.types[inst.ty.0 as usize].tracks[slot];
            Some((tc.prev.get(inst.id as usize), tc.cur.get(inst.id as usize)))
        } else {
            None
        }
    }

    /// Takes in a change of a tracked field. A newborn starts at its first value.
    pub fn apply_delta(
        &mut self,
        inst: InstanceId,
        slot: usize,
        before: &Value,
        after: &Value,
        just_born: bool,
    ) -> (r: bool)
        requires
            old(self).wf(),
            old(self).present(inst) ==> old(self).slot_known(inst.ty, slot as int),
        ensures
            final(self).wf(),
            final(self).same_schema(*old(self)),
            r == old(self).present(inst),
            forall|i: InstanceId| #[trigger] final(self).present(i) <==> old(self).present(i),
            forall|i: InstanceId, g: RFieldId| #[trigger]
                final(self).value(i, g) == old(self).value(i, g),
            forall|i: InstanceId, t: int|
                final(self).present(i) && final(self).slot_known(i.ty, t)
                    ==> #[trigger] final(self).pair(i, t) == (if i == inst && t == slot {
                    (
                        if just_born {
                            after@
                        } else {
                            before@
                        },
                        after@,
                    )
                } else {
                    old(self).pair(i, t)
                }),
            forall|ty: EntityTypeId|
                old(self).known(ty) ==> (#[trigger] final(self).at(ty)).slots == old(self).at(
                    ty,
                ).slots,
    {
        let ghost s0 = *self;
        if !self.is_present(inst) {
            return false;
        }
        let t = inst.ty.0 as usize;
        let row = inst.id as usize;
        let ghost tracks0 = self.types@[t as int].tracks@;
        let first = if just_born {
            after.clone()
        } else {
            before.clone()
        };
        let _ = self.types[t].tracks[slot].prev.set(row, first);
        let _ = self.types[t].tracks[slot].cur.set(row, after.clone());
        proof {
            let a = self.at(inst.ty);
            assert forall|x: int| 0 <= x < a.tracks@.len() && x != slot implies (
            #[trigger] a.tracks@[x]) == tracks0[x] by {}
            assert(a.wf()) by {
                assert forall|x: int| 0 <= x < a.tracks@.len() implies (
                #[trigger] a.tracks@[x]).prev@.len() == a.rows() && a.tracks@[x].cur@.len()
                    == a.rows() by {
                    assert(tracks0[x].prev@.len() == a.rows());
                }
            }
            assert forall|x: int| 0 <= x < self.types@.len() && x != t implies (
            #[trigger] self.types@[x]) == s0.types@[x] by {}
            assert forall|i: InstanceId| #[trigger] self.present(i) <==> s0.present(i) by {
                if i.ty.0 < self.types@.len() && i.ty.0 != t {
                    assert(self.types@[i.ty.0 as int] == s0.types@[i.ty.0 as int]);
                }
            }
            assert forall|i: InstanceId, g: RFieldId| #[trigger] self.value(i, g) == s0.value(
                i,
                g,
            ) by {
                if i.ty.0 < self.types@.len() && i.ty.0 != t {
                    assert(self.types@[i.ty.0 as int] == s0.types@[i.ty.0 as int]);
                }
            }
            assert forall|i: InstanceId, k: int|
                self.present(i) && self.slot_known(i.ty, k) implies #[trigger] self.pair(i, k) == (
            if i == inst && k == slot {
                (
                    if just_born {
                        after@
                    } else {
                        before@
                    },
                    after@,
                )
            } else {
                s0.pair(i, k)
            }) by {
                if i.ty.0 != t {
                    assert(self.types@[i.ty.0 as int] == s0.types@[i.ty.0 as int]);
                } else if k != slot {
                    assert(a.tracks@[k] == tracks0[k]);
                } else if i.id == inst.id {
                    assert(i == inst);
                }
            }
        }
        true
    }

    /// The instances of a type that are there.
    pub fn live_instances(&self, ty: EntityTypeId) -> (r: Vec<InstanceId>)
        requires
            self.wf(),
            self.known(ty),
        ensures
            r@ == self.live(ty),
    {
        let live = self.types[ty.0 as usize].slots.live_slots();
        let mut out: Vec<InstanceId> = Vec::new();
        let mut i: usize = 0;
        while i < live.len()
            invariant
                i <= live@.len(),
                live@ == live_upto(self.at(ty).slots@, self.at(ty).rows() as int),
                out@ =~= self.live(ty).take(i as int),
            decreases live@.len() - i,
        {
            out.push(InstanceId { ty, id: live[i].0 as u32, generation: live[i].1 });
            i = i + 1;
        }
        assert(out@ =~= self.live(ty));
        out
    }
}

/// The listed instances of a type are those that are there, each once.
pub proof fn law_live_instances_are_present(store: RenderStore, ty: EntityTypeId)
    requires
        store.wf(),
        store.known(ty),
    ensures
        forall|i: InstanceId| #[trigger]
            store.live(ty).contains(i) <==> i.ty == ty && store.present(i),
        store.live(ty).no_duplicates(),
        forall|k: int|
            0 <= k < store.live(ty).len() ==> store.present(#[trigger] store.live(ty)[k]),
{
    let slots = store.at(ty).slots@;
    let n = slots.len() as int;
    let l = live_upto(slots, n);
    let live = store.live(ty);
    assert(store.types@[ty.0 as int].wf());
    law_live_slots_are_the_occupied_ones(slots, n);
    assert forall|k: int| 0 <= k < live.len() implies store.present(#[trigger] live[k]) by {
        let e = l[k];
        assert(slots[e.0 as int].live);
    }
    assert forall|i: InstanceId| #[trigger] live.contains(i) <==> i.ty == ty && store.present(
        i,
    ) by {
        if live.contains(i) {
            let k = choose|k: int| 0 <= k < live.len() && live[k] == i;
            assert(store.present(live[k]));
        }
        if i.ty == ty && store.present(i) {
            assert(slots[i.id as int].live);
            let e = (i.id as usize, slots[i.id as int].generation);
            assert(l.contains(e));
            let k = choose|k: int| 0 <= k < l.len() && l[k] == e;
            assert(live[k] == i);
        }
    }
    assert forall|a: int, b: int| 0 <= a < live.len() && 0 <= b < live.len() && a != b implies
        live[a] != live[b] by {
        if a < b {
            assert(l[a].0 < l[b].0);
            assert(l[b].0 < n);
        } else {
            assert(l[b].0 < l[a].0);
            assert(l[a].0 < n);
        }
    }
}

}
