//! Entities of the render side alone, such as particles and floating text.
//!
//! They never enter the simulation. The render side owns their ids and fields; a freed id is
//! used again under a new generation, so that an old handle finds nothing.
use crate::column::Column;
use crate::genslots::live_upto;
use crate::genslots::slot_matches;
use crate::genslots::GenSlots;
use crate::genslots::Slot;
use crate::genslots::VACANT;
use crate::render::store::RFieldId;
use crate::value::Val;
use crate::value::Value;
use vstd::prelude::*;

verus! {

/// A type of local entities.
#[derive(Clone, Copy, Debug, PartialEq, Eq, Structural, Hash, PartialOrd, Ord)]
pub struct RenderLocalTypeId(pub u32);

/// A local entity.
#[derive(Clone, Copy, Debug, PartialEq, Eq, Structural, Hash, PartialOrd, Ord)]
pub struct RenderLocalId {
    pub ty: RenderLocalTypeId,
    pub id: u32,
    pub generation: u64,
}

/// A field of a local type.
pub struct RenderLocalFieldDef {
    pub name: String,
    pub default: Value,
}

impl RenderLocalFieldDef {
    pub fn new(name: &str, default: Value) -> (r: RenderLocalFieldDef)
        ensures
            r.name@ == name@,
            r.default == default,
    {
        RenderLocalFieldDef { name: name.to_string(), default }
    }
}

/// What a calculation asks of the local entities.
pub enum RenderLocalCommand {
    Spawn { ty: RenderLocalTypeId, init: Vec<(RFieldId, Value)> },
    Destroy(RenderLocalId),
}

/// Why a local entity cannot be made or a field not be found.
#[derive(Clone, Copy, Debug, PartialEq, Eq, Structural)]
pub enum LocalError {
    NoSuchType(RenderLocalTypeId),
    /// The first field of the initial values that the type does not have.
    NoSuchField(RenderLocalTypeId, RFieldId),
    /// The type has no field of this name.
    NoSuchName(RenderLocalTypeId),
    /// Every id of the type is in use.
    Full(RenderLocalTypeId),
    /// The field has a writer.
    Owned(RenderLocalTypeId, RFieldId),
    /// The field is claimed, or bound, twice at once.
    Twice(RenderLocalTypeId, RFieldId),
    /// The type has a binding.
    AlreadyRenderable(RenderLocalTypeId),
}

/// The value that a field starts with: the last one given for it, or else its default.
pub open spec fn initial(init: Seq<(RFieldId, Value)>, f: RFieldId, default: Val) -> Val
    decreases init.len(),
{
    if init.len() == 0 {
        default
    } else if init.last().0 == f {
        init.last().1@
    } else {
        initial(init.drop_last(), f, default)
    }
}

/// The entities of one local type.
pub struct LocalTypeStore {
    pub name: String,
    pub fields: Vec<RenderLocalFieldDef>,
    pub cols: Vec<Column>,
    pub slots: GenSlots,
    /// The generation of each id's holder, or of its next one.
    pub generations: Vec<u64>,
    pub free_ids: Vec<u32>,
}

/// Which ids of a local type are held, and which are free.
pub ghost struct Places {
    pub slots: Seq<Slot>,
    pub generations: Seq<u64>,
    pub free_ids: Seq<u32>,
}

impl Places {
    pub open spec fn empty() -> Places {
        Places { slots: Seq::empty(), generations: Seq::empty(), free_ids: Seq::empty() }
    }

    /// The id that the next entity gets: the last one that became free, else a new one.
    pub open spec fn next_id(self) -> u32 {
        if self.free_ids.len() > 0 {
            self.free_ids.last()
        } else {
            self.slots.len() as u32
        }
    }

    pub open spec fn next_generation(self) -> u64 {
        if self.free_ids.len() > 0 {
            self.generations[self.free_ids.last() as int]
        } else {
            0
        }
    }

    /// One entity more.
    pub open spec fn with_new(self) -> Places {
        let slot = Slot { generation: self.next_generation(), live: true };
        if self.free_ids.len() > 0 {
            Places {
                slots: self.slots.update(self.next_id() as int, slot),
                free_ids: self.free_ids.drop_last(),
                ..self
            }
        } else {
            Places {
                slots: self.slots.push(slot),
                generations: self.generations.push(0),
                ..self
            }
        }
    }

    /// The holder of an id is gone. The id is free under its next generation, if there is one.
    pub open spec fn without(self, id: u32) -> Places {
        let g = self.generations[id as int];
        let slots = self.slots.update(
            id as int,
            Slot { generation: self.slots[id as int].generation, live: false },
        );
        if g < u64::MAX {
            Places {
                slots,
                generations: self.generations.update(id as int, (g + 1) as u64),
                free_ids: self.free_ids.push(id),
            }
        } else {
            Places { slots, ..self }
        }
    }
}

impl LocalTypeStore {
    pub open spec fn places(self) -> Places {
        Places {
            slots: self.slots@,
            generations: self.generations@,
            free_ids: self.free_ids@,
        }
    }

    pub open spec fn rows(self) -> nat {
        self.slots@.len()
    }

    pub open spec fn present(self, id: u32, generation: u64) -> bool {
        slot_matches(self.slots@, id as int, generation)
    }

    pub open spec fn wf(self) -> bool {
        &&& self.fields@.len() == self.cols@.len()
        &&& self.cols@.len() <= u32::MAX
        &&& forall|f: int|
            0 <= f < self.cols@.len() ==> (#[trigger] self.cols@[f])@.len() == self.rows()
        &&& self.generations@.len() == self.rows()
        &&& self.rows() <= u32::MAX
        &&& forall|i: int|
            0 <= i < self.rows() && (#[trigger] self.slots@[i]).live ==> self.slots@[i].generation
                == self.generations@[i]
        &&& forall|k: int|
            0 <= k < self.free_ids@.len() ==> (#[trigger] self.free_ids@[k]) < self.rows()
                && !self.slots@[self.free_ids@[k] as int].live
        &&& self.free_ids@.no_duplicates()
    }

    /// No entity will ever answer to this handle again.
    pub open spec fn spent(self, id: u32, generation: u64) -> bool {
        &&& id < self.rows()
        &&& !self.present(id, generation)
        &&& generation < self.generations@[id as int] || (generation == self.generations@[id as int]
            && !self.free_ids@.contains(id))
    }

    pub open spec fn read(self, id: u32, generation: u64, f: int) -> Val {
        if self.present(id, generation) && 0 <= f < self.cols@.len() {
            self.cols@[f]@[id as int]
        } else {
            Val::Null
        }
    }

    pub open spec fn same_schema(self, other: LocalTypeStore) -> bool {
        &&& self.name == other.name
        &&& self.fields == other.fields
    }

    pub open spec fn rows_kept(self, other: LocalTypeStore, id: u32) -> bool {
        &&& forall|i: u32, g: u64|
            i != id ==> (#[trigger] self.present(i, g) <==> other.present(i, g))
        &&& forall|i: u32, g: u64, f: int|
            i != id ==> #[trigger] self.read(i, g, f) == other.read(i, g, f)
    }

    /// Handles that are spent stay so.
    pub open spec fn spent_kept(self, other: LocalTypeStore) -> bool {
        forall|i: u32, g: u64| #[trigger] other.spent(i, g) ==> self.spent(i, g)
    }

    /// Makes a row for a new id.
    fn add_row(&mut self)
        requires
            old(self).wf(),
            old(self).rows() < u32::MAX,
        ensures
            final(self).wf(),
            final(self).same_schema(*old(self)),
            final(self).rows() == old(self).rows() + 1,
            final(self).generations@ == old(self).generations@.push(0),
            final(self).free_ids == old(self).free_ids,
            final(self).slots@ == old(self).slots@.push(Slot { generation: VACANT, live: false }),
            forall|f: int, r: int|
                0 <= f < final(self).cols@.len() && 0 <= r < old(self).rows() ==> #[trigger] final(
                    self).cols@[f]@[r] == old(self).cols@[f]@[r],
    {
        let ghost before = *self;
        let n: usize = self.slots.len() + 1;
        let mut i: usize = 0;
        while i < self.cols.len()
            invariant
                n == before.rows() + 1,
                before.wf(),
                self.slots == before.slots,
                self.fields == before.fields,
                self.name == before.name,
                self.generations == before.generations,
                self.free_ids == before.free_ids,
                self.cols@.len() == before.cols@.len(),
                i <= self.cols@.len(),
                forall|f: int|
                    0 <= f < i ==> (#[trigger] self.cols@[f])@ == crate::column::resized(
                        before.cols@[f]@,
                        n as nat,
                        before.fields@[f].default@,
                    ),
                forall|f: int|
                    i <= f < self.cols@.len() ==> (#[trigger] self.cols@[f]) == before.cols@[f],
            decreases self.cols@.len() - i,
        {
            self.cols[i].resize(n, &self.fields[i].default);
            i = i + 1;
        }
        self.slots.grow_to(n);
        self.generations.push(0);
        proof {
            assert(self.slots@ =~= before.slots@.push(Slot { generation: VACANT, live: false }));
            assert forall|k: int| 0 <= k < self.rows() && (#[trigger] self.slots@[k]).live implies
                self.slots@[k].generation == self.generations@[k] by {
                assert(before.slots@[k].live);
            }
        }
    }

    /// Gives every field of a row its starting value.
    fn fill_row(&mut self, id: u32, init: &Vec<(RFieldId, Value)>)
        requires
            old(self).wf(),
            id < old(self).rows(),
            forall|k: int| 0 <= k < init@.len() ==> (#[trigger] init@[k]).0.0 < old(self).cols@.len(),
        ensures
            final(self).wf(),
            final(self).same_schema(*old(self)),
            final(self).slots == old(self).slots,
            final(self).generations == old(self).generations,
            final(self).free_ids == old(self).free_ids,
            final(self).cols@.len() == old(self).cols@.len(),
            forall|f: int|
                0 <= f < final(self).cols@.len() ==> (#[trigger] final(self).cols@[f])@ == old(
                    self).cols@[f]@.update(
                    id as int,
                    initial(init@, RFieldId(f as u32), old(self).fields@[f].default@),
                ),
    {
        let ghost before = *self;
        let row = id as usize;
        let mut i: usize = 0;
        while i < self.cols.len()
            invariant
                row == id,
                id < before.rows(),
                before.wf(),
                self.slots == before.slots,
                self.fields == before.fields,
                self.name == before.name,
                self.generations == before.generations,
                self.free_ids == before.free_ids,
                self.cols@.len() == before.cols@.len(),
                i <= self.cols@.len(),
                forall|f: int|
                    0 <= f < i ==> (#[trigger] self.cols@[f])@ == before.cols@[f]@.update(
                        id as int,
                        before.fields@[f].default@,
                    ),
                forall|f: int|
                    i <= f < self.cols@.len() ==> (#[trigger] self.cols@[f]) == before.cols@[f],
            decreases self.cols@.len() - i,
        {
            let _ = self.cols[i].set(row, self.fields[i].default.clone());
            i = i + 1;
        }
        let mut k: usize = 0;
        assert(init@.take(0) =~= Seq::<(RFieldId, Value)>::empty());
        while k < init.len()
            invariant
                row == id,
                id < before.rows(),
                before.wf(),
                self.slots == before.slots,
                self.fields == before.fields,
                self.name == before.name,
                self.generations == before.generations,
                self.free_ids == before.free_ids,
                self.cols@.len() == before.cols@.len(),
                k <= init@.len(),
                forall|j: int|
                    0 <= j < init@.len() ==> (#[trigger] init@[j]).0.0 < before.cols@.len(),
                forall|f: int|
                    0 <= f < self.cols@.len() ==> (#[trigger] self.cols@[f])@
                        == before.cols@[f]@.update(
                        id as int,
                        initial(
                            init@.take(k as int),
                            RFieldId(f as u32),
                            before.fields@[f].default@,
                        ),
                    ),
            decreases init@.len() - k,
        {
            let f = init[k].0.0 as usize;
            let ghost cols0 = self.cols@;
            let v = init[k].1.clone();
            let _ = self.cols[f].set(row, v);
            proof {
                let done = init@.take(k + 1);
                assert(done.drop_last() =~= init@.take(k as int));
                assert(done.last() == init@[k as int]);
                assert forall|g: int| 0 <= g < self.cols@.len() implies (#[trigger] self.cols@[g])@
                    == before.cols@[g]@.update(
                    id as int,
                    initial(done, RFieldId(g as u32), before.fields@[g].default@),
                ) by {
                    assert(cols0[g]@ == before.cols@[g]@.update(
                        id as int,
                        initial(
                            init@.take(k as int),
                            RFieldId(g as u32),
                            before.fields@[g].default@,
                        ),
                    ));
                    if g == f {
                        assert(self.cols@[g]@ =~= before.cols@[g]@.update(id as int, v@));
                    }
                }
            }
            k = k + 1;
        }
        assert(init@.take(init@.len() as int) =~= init@);
    }

    /// A new entity, under an id that is free.
    fn spawn(&mut self, init: &Vec<(RFieldId, Value)>) -> (r: Option<(u32, u64)>)
        requires
            old(self).wf(),
            forall|k: int| 0 <= k < init@.len() ==> (#[trigger] init@[k]).0.0 < old(self).cols@.len(),
        ensures
            final(self).wf(),
            final(self).same_schema(*old(self)),
            final(self).spent_kept(*old(self)),
            r is None <==> old(self).free_ids@.len() == 0 && old(self).rows() == u32::MAX,
            r is None ==> *final(self) == *old(self),
            r is Some ==> {
                let (id, g) = r->0;
                &&& id == old(self).places().next_id()
                &&& g == old(self).places().next_generation()
                &&& final(self).places() == old(self).places().with_new()
                &&& !old(self).present(id, g)
                &&& !old(self).spent(id, g)
                &&& final(self).rows_kept(*old(self), id)
                &&& forall|h: u64| !#[trigger] old(self).present(id, h)
                &&& forall|h: u64| #[trigger] final(self).present(id, h) <==> h == g
                &&& forall|f: int|
                    0 <= f < final(self).cols@.len() ==> #[trigger] final(self).read(id, g, f)
                        == initial(
                        init@,
                        RFieldId(f as u32),
                        final(self).fields@[f].default@,
                    )
            },
    {
        let ghost before = *self;
        if self.free_ids.len() == 0 && self.slots.len() >= u32::MAX as usize {
            return None;
        }
        let id = match self.free_ids.pop() {
            Some(id) => {
                proof {
                    assert(id == before.free_ids@.last());
                    assert(self.free_ids@ =~= before.free_ids@.drop_last());
                    assert forall|k: int| 0 <= k < self.free_ids@.len() implies
                        self.free_ids@[k] == before.free_ids@[k] by {}
                    if self.free_ids@.contains(id) {
                        let k = choose|k: int| 0 <= k < self.free_ids@.len() && self.free_ids@[k] == id;
                        assert(before.free_ids@[k] == before.free_ids@[before.free_ids@.len() - 1]);
                    }
                }
                id
            },
            None => {
                let id = self.slots.len() as u32;
                self.add_row();
                id
            },
        };
        let ghost mid = *self;
        assert(mid.wf());
        let row = id as usize;
        let generation = self.generations[row];
        self.slots.activate(row, generation);
        proof {
            assert forall|k: int| 0 <= k < self.free_ids@.len() implies (
            #[trigger] self.free_ids@[k]) < self.rows() && !self.slots@[self.free_ids@[k] as int].live by {
                assert(mid.free_ids@[k] == self.free_ids@[k]);
                assert(self.free_ids@.contains(self.free_ids@[k]));
                assert(self.free_ids@[k] != id);
            }
            assert(self.wf());
        }
        self.fill_row(id, init);
        proof {
            let p = before.places().with_new();
            assert(self.slots@ =~= p.slots);
            assert(self.generations@ =~= p.generations);
            assert(self.free_ids@ =~= p.free_ids);
            assert forall|h: u64| !#[trigger] before.present(id, h) by {
                if before.free_ids@.len() > 0 {
                    assert(!before.slots@[before.free_ids@[before.free_ids@.len() - 1] as int].live);
                }
            }
            assert forall|i: u32, g: u64| #[trigger] before.spent(i, g) implies self.spent(i, g) by {
                if before.free_ids@.len() > 0 {
                    assert(before.free_ids@.contains(id)) by {
                        assert(before.free_ids@[before.free_ids@.len() - 1] == id);
                    }
                    if self.free_ids@.contains(i) {
                        let k = choose|k: int|
                            0 <= k < self.free_ids@.len() && self.free_ids@[k] == i;
                        assert(before.free_ids@[k] == i);
                    }
                }
            }
            assert forall|i: u32, g: u64, f: int| i != id implies #[trigger] self.read(i, g, f)
                == before.read(i, g, f) by {
                assert(self.present(i, g) <==> before.present(i, g));
                if before.present(i, g) && 0 <= f < self.cols@.len() {
                    assert(mid.cols@[f]@[i as int] == before.cols@[f]@[i as int]);
                }
            }
        }
        Some((id, generation))
    }

    /// An entity ends. Its id is free again, unless its generations are used up.
    fn destroy(&mut self, id: u32, generation: u64) -> (r: bool)
        requires
            old(self).wf(),
        ensures
            final(self).wf(),
            final(self).same_schema(*old(self)),
            final(self).spent_kept(*old(self)),
            r == old(self).present(id, generation),
            !r ==> *final(self) == *old(self),
            r ==> final(self).rows_kept(*old(self), id),
            r ==> final(self).places() == old(self).places().without(id),
            r ==> final(self).spent(id, generation),
            !final(self).present(id, generation),
    {
        let ghost before = *self;
        let row = id as usize;
        if !self.slots.matches(row, generation) {
            return false;
        }
        assert(before.slots@[id as int].live);
        self.slots.kill(row);
        let mut i: usize = 0;
        while i < self.cols.len()
            invariant
                row == id,
                id < before.rows(),
                before.wf(),
                self.slots@ == before.slots@.update(
                    id as int,
                    Slot { generation: before.slots@[id as int].generation, live: false },
                ),
                self.fields == before.fields,
                self.name == before.name,
                self.generations == before.generations,
                self.free_ids == before.free_ids,
                self.cols@.len() == before.cols@.len(),
                i <= self.cols@.len(),
                forall|f: int|
                    0 <= f < self.cols@.len() ==> (#[trigger] self.cols@[f])@.len()
                        == before.rows(),
                forall|f: int, x: int|
                    0 <= f < self.cols@.len() && 0 <= x < before.rows() && x != id ==> (
                    #[trigger] self.cols@[f]@[x]) == before.cols@[f]@[x],
            decreases self.cols@.len() - i,
        {
            let ghost cols0 = self.cols@;
            self.cols[i].clear_row(row);
            proof {
                assert forall|f: int| 0 <= f < self.cols@.len() implies (
                #[trigger] self.cols@[f])@.len() == before.rows() by {
                    assert(cols0[f]@.len() == before.rows());
                }
                assert forall|f: int, x: int|
                    0 <= f < self.cols@.len() && 0 <= x < before.rows() && x != id implies (
                #[trigger] self.cols@[f]@[x]) == before.cols@[f]@[x] by {
                    assert(cols0[f]@[x] == before.cols@[f]@[x]);
                    assert(cols0[f]@.len() == before.rows());
                }
            }
            i = i + 1;
        }
        proof {
            assert(!before.free_ids@.contains(id)) by {
                if before.free_ids@.contains(id) {
                    let k = choose|k: int| 0 <= k < before.free_ids@.len() && before.free_ids@[k] == id;
                    assert(!before.slots@[before.free_ids@[k] as int].live);
                }
            }
        }
        if generation < u64::MAX {
            self.generations.set(row, generation + 1);
            self.free_ids.push(id);
            assert(self.free_ids@.drop_last() =~= before.free_ids@);
        }
        proof {
            assert forall|k: int| 0 <= k < self.free_ids@.len() implies (
            #[trigger] self.free_ids@[k]) < self.rows() && !self.slots@[self.free_ids@[k] as int].live by {
                if k < before.free_ids@.len() {
                    assert(self.free_ids@[k] == before.free_ids@[k]);
                }
            }
            assert(self.free_ids@.no_duplicates()) by {
                assert forall|a: int, b: int|
                    0 <= a < self.free_ids@.len() && 0 <= b < self.free_ids@.len() && a != b implies
                    self.free_ids@[a] != self.free_ids@[b] by {
                    if a < before.free_ids@.len() {
                        assert(self.free_ids@[a] == before.free_ids@[a]);
                        assert(before.free_ids@.contains(before.free_ids@[a]));
                    }
                    if b < before.free_ids@.len() {
                        assert(self.free_ids@[b] == before.free_ids@[b]);
                        assert(before.free_ids@.contains(before.free_ids@[b]));
                    }
                }
            }
            assert(self.wf());
            assert forall|i: u32, g: u64| #[trigger] before.spent(i, g) implies self.spent(i, g) by {
                if self.free_ids@.contains(i) && i != id {
                    let k = choose|k: int| 0 <= k < self.free_ids@.len() && self.free_ids@[k] == i;
                    assert(before.free_ids@[k] == i);
                }
            }
            assert forall|i: u32, g: u64, f: int| i != id implies #[trigger] self.read(i, g, f)
                == before.read(i, g, f) by {
                assert(self.present(i, g) <==> before.present(i, g));
            }
            let p = before.places().without(id);
            assert(self.slots@ =~= p.slots);
            assert(self.generations@ =~= p.generations);
            assert(self.free_ids@ =~= p.free_ids);
        }
        true
    }
}

/// The local entities of every type.
pub struct LocalStore {
    pub types: Vec<LocalTypeStore>,
}

impl LocalStore {
    pub open spec fn wf(self) -> bool {
        &&& self.types@.len() <= u32::MAX
        &&& forall|t: int| 0 <= t < self.types@.len() ==> (#[trigger] self.types@[t]).wf()
    }

    pub open spec fn known(self, ty: RenderLocalTypeId) -> bool {
        ty.0 < self.types@.len()
    }

    pub open spec fn at(self, ty: RenderLocalTypeId) -> LocalTypeStore {
        self.types@[ty.0 as int]
    }

    pub open spec fn field_known(self, ty: RenderLocalTypeId, f: RFieldId) -> bool {
        self.known(ty) && f.0 < self.at(ty).fields@.len()
    }

    pub open spec fn present(self, id: RenderLocalId) -> bool {
        self.known(id.ty) && self.at(id.ty).present(id.id, id.generation)
    }

    pub open spec fn spent(self, id: RenderLocalId) -> bool {
        self.known(id.ty) && self.at(id.ty).spent(id.id, id.generation)
    }

    pub open spec fn value(self, id: RenderLocalId, f: RFieldId) -> Val {
        if self.known(id.ty) {
            self.at(id.ty).read(id.id, id.generation, f.0 as int)
        } else {
            Val::Null
        }
    }

    pub open spec fn same_schema(self, other: LocalStore) -> bool {
        &&& self.types@.len() == other.types@.len()
        &&& forall|t: int|
            0 <= t < self.types@.len() ==> (#[trigger] self.types@[t]).same_schema(other.types@[t])
    }

    pub open spec fn spent_kept(self, other: LocalStore) -> bool {
        forall|id: RenderLocalId| #[trigger] other.spent(id) ==> self.spent(id)
    }

    /// Every type but `ty` is as in `other`.
    pub open spec fn only_type(self, other: LocalStore, ty: RenderLocalTypeId) -> bool {
        &&& self.types@.len() == other.types@.len()
        &&& forall|t: RenderLocalTypeId|
            other.known(t) && t != ty ==> #[trigger] self.at(t) == other.at(t)
    }

    /// Everything but what has this id is as in `other`.
    pub open spec fn rows_kept(self, other: LocalStore, id: RenderLocalId) -> bool {
        &&& forall|i: RenderLocalId|
            i.ty != id.ty || i.id != id.id ==> (#[trigger] self.present(i) <==> other.present(i))
        &&& forall|i: RenderLocalId, f: RFieldId|
            i.ty != id.ty || i.id != id.id ==> #[trigger] self.value(i, f) == other.value(i, f)
    }

    /// The first initial value for a field that the type does not have.
    pub open spec fn bad_init(self, ty: RenderLocalTypeId, init: Seq<(RFieldId, Value)>) -> int
        decreases init.len(),
    {
        if init.len() == 0 {
            0
        } else {
            let n = self.bad_init(ty, init.drop_last());
            if n < init.len() - 1 || !self.field_known(ty, init.last().0) {
                n
            } else {
                n + 1
            }
        }
    }

    /// Why a local entity of this type with these initial values cannot be made.
    pub open spec fn refusal(self, ty: RenderLocalTypeId, init: Seq<(RFieldId, Value)>) -> Option<
        LocalError,
    > {
        if !self.known(ty) {
            Some(LocalError::NoSuchType(ty))
        } else if self.bad_init(ty, init) < init.len() {
            Some(LocalError::NoSuchField(ty, init[self.bad_init(ty, init)].0))
        } else if self.at(ty).free_ids@.len() == 0 && self.at(ty).rows() == u32::MAX {
            Some(LocalError::Full(ty))
        } else {
            None
        }
    }

    /// The entities of a type, in the order of their ids.
    pub open spec fn live(self, ty: RenderLocalTypeId) -> Seq<RenderLocalId> {
        if self.known(ty) {
            let l = live_upto(self.at(ty).slots@, self.at(ty).rows() as int);
            Seq::new(
                l.len(),
                |i: int| RenderLocalId { ty, id: l[i].0 as u32, generation: l[i].1 },
            )
        } else {
            Seq::empty()
        }
    }

    pub fn new() -> (r: LocalStore)
        ensures
            r.wf(),
            r.types@.len() == 0,
    {
        LocalStore { types: Vec::new() }
    }

    /// Adds a type.
    pub fn add_type(&mut self, name: &str, fields: Vec<RenderLocalFieldDef>) -> (r:
        RenderLocalTypeId)
        requires
            old(self).wf(),
            old(self).types@.len() < u32::MAX,
            fields@.len() <= u32::MAX,
        ensures
            final(self).wf(),
            r.0 == old(self).types@.len(),
            final(self).types@.len() == old(self).types@.len() + 1,
            final(self).types@.drop_last() == old(self).types@,
            final(self).at(r).name@ == name@,
            final(self).at(r).fields == fields,
            final(self).at(r).places() == Places::empty(),
            final(self).at(r).rows() == 0,
    {
        let ghost before = self.types@;
        let ty = RenderLocalTypeId(self.types.len() as u32);
        let mut cols: Vec<Column> = Vec::new();
        let mut i: usize = 0;
        while i < fields.len()
            invariant
                i <= fields@.len(),
                cols@.len() == i,
                forall|f: int| 0 <= f < i ==> (#[trigger] cols@[f])@.len() == 0,
            decreases fields@.len() - i,
        {
            cols.push(Column::with_default(&fields[i].default, 0));
            i = i + 1;
        }
        self.types.push(
            LocalTypeStore {
                name: name.to_string(),
                fields,
                cols,
                slots: GenSlots::new(),
                generations: Vec::new(),
                free_ids: Vec::new(),
            },
        );
        proof {
            let p = self.types@.last().places();
            assert(p.slots =~= Seq::empty());
            assert(p.generations =~= Seq::empty());
            assert(p.free_ids =~= Seq::empty());
            assert(self.types@.drop_last() =~= before);
            assert forall|t: int| 0 <= t < self.types@.len() implies (
            #[trigger] self.types@[t]).wf() by {
                if t < before.len() {
                    assert(self.types@[t] == before[t]);
                }
            }
        }
        ty
    }

    pub fn has_type(&self, ty: RenderLocalTypeId) -> (r: bool)
        ensures
            r == self.known(ty),
    {
        (ty.0 as usize) < self.types.len()
    }

    pub fn has_field(&self, ty: RenderLocalTypeId, f: RFieldId) -> (r: bool)
        ensures
            r == self.field_known(ty, f),
    {
        (ty.0 as usize) < self.types.len() && (f.0 as usize)
            < self.types[ty.0 as usize].fields.len()
    }

    /// The first field of this name.
    pub fn field(&self, ty: RenderLocalTypeId, name: &str) -> (r: Result<RFieldId, LocalError>)
        requires
            self.wf(),
        ensures
            match r {
                Ok(f) => self.field_known(ty, f) && self.at(ty).fields@[f.0 as int].name@ == name@
                    && forall|i: int|
                    0 <= i < f.0 ==> (#[trigger] self.at(ty).fields@[i]).name@ != name@,
                Err(LocalError::NoSuchType(t)) => t == ty && !self.known(ty),
                Err(LocalError::NoSuchName(t)) => t == ty && self.known(ty) && forall|i: int|
                    0 <= i < self.at(ty).fields@.len() ==> (
                    #[trigger] self.at(ty).fields@[i]).name@ != name@,
                Err(_) => false,
            },
    {
        if ty.0 as usize >= self.types.len() {
            return Err(LocalError::NoSuchType(ty));
        }
        let t = &self.types[ty.0 as usize];
        let key = name.to_string();
        let mut i: usize = 0;
        while i < t.fields.len()
            invariant
                self.wf(),
                self.known(ty),
                *t == self.at(ty),
                key@ == name@,
                i <= t.fields@.len(),
                forall|k: int| 0 <= k < i ==> (#[trigger] t.fields@[k]).name@ != name@,
            decreases t.fields@.len() - i,
        {
            if t.fields[i].name == key {
                return Ok(RFieldId(i as u32));
            }
            i = i + 1;
        }
        Err(LocalError::NoSuchName(ty))
    }

    proof fn lemma_one_type(self, before: LocalStore, id: RenderLocalId)
        requires
            before.wf(),
            before.known(id.ty),
            self.types@ == before.types@.update(id.ty.0 as int, self.types@[id.ty.0 as int]),
            self.at(id.ty).wf(),
            self.at(id.ty).same_schema(before.at(id.ty)),
            self.at(id.ty).rows_kept(before.at(id.ty), id.id),
            self.at(id.ty).spent_kept(before.at(id.ty)),
        ensures
            self.wf(),
            self.same_schema(before),
            self.rows_kept(before, id),
            self.spent_kept(before),
    {
        let ty = id.ty;
        assert forall|i: RenderLocalId| i.ty != id.ty || i.id != id.id implies (
        #[trigger] self.present(i) <==> before.present(i)) by {
            if i.ty == ty {
                assert(self.at(ty).present(i.id, i.generation) <==> before.at(ty).present(
                    i.id,
                    i.generation,
                ));
            } else if i.ty.0 < self.types@.len() {
                assert(self.types@[i.ty.0 as int] == before.types@[i.ty.0 as int]);
            }
        }
        assert forall|i: RenderLocalId, f: RFieldId|
            i.ty != id.ty || i.id != id.id implies #[trigger] self.value(i, f) == before.value(
            i,
            f,
        ) by {
            if i.ty == ty {
                assert(self.at(ty).read(i.id, i.generation, f.0 as int) == before.at(ty).read(
                    i.id,
                    i.generation,
                    f.0 as int,
                ));
            } else if i.ty.0 < self.types@.len() {
                assert(self.types@[i.ty.0 as int] == before.types@[i.ty.0 as int]);
            }
        }
        assert forall|i: RenderLocalId| #[trigger] before.spent(i) implies self.spent(i) by {
            if i.ty == ty {
                assert(before.at(ty).spent(i.id, i.generation));
            } else {
                assert(self.types@[i.ty.0 as int] == before.types@[i.ty.0 as int]);
            }
        }
    }

    fn check_init(&self, ty: RenderLocalTypeId, init: &Vec<(RFieldId, Value)>) -> (r: usize)
        requires
            self.wf(),
            self.known(ty),
        ensures
            r == self.bad_init(ty, init@),
            r <= init@.len(),
            r == init@.len() ==> forall|k: int|
                0 <= k < init@.len() ==> self.field_known(ty, (#[trigger] init@[k]).0),
    {
        let mut i: usize = 0;
        let n = self.types[ty.0 as usize].fields.len();
        let mut bad: Option<usize> = None;
        assert(init@.take(0) =~= Seq::<(RFieldId, Value)>::empty());
        while i < init.len()
            invariant
                self.wf(),
                self.known(ty),
                n == self.at(ty).fields@.len(),
                i <= init@.len(),
                bad is None ==> self.bad_init(ty, init@.take(i as int)) == i && forall|k: int|
                    0 <= k < i ==> self.field_known(ty, (#[trigger] init@[k]).0),
                bad is Some ==> bad->0 < i && self.bad_init(ty, init@.take(i as int)) == bad->0,
            decreases init@.len() - i,
        {
            proof {
                assert(init@.take(i + 1).drop_last() =~= init@.take(i as int));
                assert(init@.take(i + 1).last() == init@[i as int]);
            }
            if bad.is_none() && init[i].0.0 as usize >= n {
                bad = Some(i);
            }
            i = i + 1;
        }
        assert(init@.take(init@.len() as int) =~= init@);
        match bad {
            Some(k) => k,
            None => i,
        }
    }

    /// A new entity.
    pub fn spawn(&mut self, ty: RenderLocalTypeId, init: Vec<(RFieldId, Value)>) -> (r: Result<
        RenderLocalId,
        LocalError,
    >)
        requires
            old(self).wf(),
        ensures
            final(self).wf(),
            final(self).same_schema(*old(self)),
            final(self).spent_kept(*old(self)),
            r is Ok <==> old(self).refusal(ty, init@) is None,
            r is Err ==> Some(r->Err_0) == old(self).refusal(ty, init@) && *final(self) == *old(
                self),
            r is Ok ==> {
                &&& r->Ok_0.ty == ty
                &&& r->Ok_0.id == old(self).at(ty).places().next_id()
                &&& r->Ok_0.generation == old(self).at(ty).places().next_generation()
                &&& final(self).only_type(*old(self), ty)
                &&& final(self).at(ty).places() == old(self).at(ty).places().with_new()
                &&& !old(self).spent(r->Ok_0)
                &&& forall|i: RenderLocalId|
                    i.ty == ty && i.id == r->Ok_0.id ==> !#[trigger] old(self).present(i)
                &&& final(self).rows_kept(*old(self), r->Ok_0)
                &&& forall|i: RenderLocalId|
                    i.ty == ty && i.id == r->Ok_0.id ==> (#[trigger] final(self).present(i) <==> i
                        == r->Ok_0)
                &&& forall|f: RFieldId|
                    final(self).field_known(ty, f) ==> #[trigger] final(self).value(r->Ok_0, f)
                        == initial(init@, f, final(self).at(ty).fields@[f.0 as int].default@)
            },
    {
        let ghost before = *self;
        if ty.0 as usize >= self.types.len() {
            return Err(LocalError::NoSuchType(ty));
        }
        let k = self.check_init(ty, &init);
        if k < init.len() {
            return Err(LocalError::NoSuchField(ty, init[k].0));
        }
        if self.types[ty.0 as usize].free_ids.len() == 0 && self.types[ty.0 as usize].slots.len()
            >= u32::MAX as usize {
            return Err(LocalError::Full(ty));
        }
        match self.types[ty.0 as usize].spawn(&init) {
            None => Err(LocalError::Full(ty)),
            Some((id, generation)) => {
                let r = RenderLocalId { ty, id, generation };
                proof {
                    self.lemma_one_type(before, r);
                    assert forall|i: RenderLocalId|
                        i.ty == ty && i.id == id implies !#[trigger] before.present(i) by {
                        assert(!before.at(ty).present(id, i.generation));
                    }
                    assert forall|i: RenderLocalId| i.ty == ty && i.id == id implies (
                    #[trigger] self.present(i) <==> i == r) by {
                        assert(self.at(ty).present(id, i.generation) <==> i.generation
                            == generation);
                    }
                    assert forall|f: RFieldId| self.field_known(ty, f) implies #[trigger] self.value(
                        r,
                        f,
                    ) == initial(init@, f, self.at(ty).fields@[f.0 as int].default@) by {
                        assert(self.at(ty).read(id, generation, f.0 as int) == initial(
                            init@,
                            RFieldId(f.0),
                            self.at(ty).fields@[f.0 as int].default@,
                        ));
                    }
                }
                Ok(r)
            },
        }
    }

    /// An entity ends. A handle of none changes nothing.
    pub fn destroy(&mut self, id: RenderLocalId) -> (r: bool)
        requires
            old(self).wf(),
        ensures
            final(self).wf(),
            final(self).same_schema(*old(self)),
            final(self).spent_kept(*old(self)),
            r == old(self).present(id),
            !r ==> *final(self) == *old(self),
            final(self).rows_kept(*old(self), id),
            r ==> final(self).spent(id),
            r ==> final(self).only_type(*old(self), id.ty),
            r ==> final(self).at(id.ty).places() == old(self).at(id.ty).places().without(id.id),
            !final(self).present(id),
    {
        let ghost before = *self;
        if !self.is_present(id) {
            return false;
        }
        let r = self.types[id.ty.0 as usize].destroy(id.id, id.generation);
        proof {
            self.lemma_one_type(before, id);
        }
        r
    }

    pub fn is_present(&self, id: RenderLocalId) -> (r: bool)
        ensures
            r == self.present(id),
    {
        (id.ty.0 as usize) < self.types.len() && self.types[id.ty.0 as usize].slots.matches(
            id.id as usize,
            id.generation,
        )
    }

    pub fn read(&self, id: RenderLocalId, f: RFieldId) -> (r: Value)
        requires
            self.wf(),
        ensures
            r@ == self.value(id, f),
    {
        if self.is_present(id) {
            let t = &self.types[id.ty.0 as usize];
            if (f.0 as usize) < t.cols.len() {
                return t.cols[f.0 as usize].get(id.id as usize);
            }
        }
        Value::Null
    }

    /// Writes a field. An entity that is not there, or an unknown field, changes nothing.
    pub fn write(&mut self, id: RenderLocalId, f: RFieldId, v: Value)
        requires
            old(self).wf(),
        ensures
            final(self).wf(),
            final(self).same_schema(*old(self)),
            final(self).spent_kept(*old(self)),
            forall|i: RenderLocalId| #[trigger] final(self).present(i) <==> old(self).present(i),
            forall|ty: RenderLocalTypeId| #[trigger]
                final(self).live(ty) == old(self).live(ty),
            final(self).only_type(*old(self), id.ty),
            old(self).known(id.ty) ==> final(self).at(id.ty).places() == old(self).at(
                id.ty,
            ).places(),
            forall|i: RenderLocalId, g: RFieldId| #[trigger]
                final(self).value(i, g) == (if i == id && g == f && old(self).present(id) && old(
                    self).field_known(id.ty, f) {
                    v@
                } else {
                    old(self).value(i, g)
                }),
    {
        let ghost before = *self;
        if self.is_present(id) {
            let t = id.ty.0 as usize;
            let fi = f.0 as usize;
            if fi < self.types[t].cols.len() {
                let ghost cols0 = self.types@[t as int].cols@;
                let _ = self.types[t].cols[fi].set(id.id as usize, v);
                proof {
                    let a = self.at(id.ty);
                    let b = before.at(id.ty);
                    assert forall|x: int| 0 <= x < a.cols@.len() && x != fi implies (
                    #[trigger] a.cols@[x]) == cols0[x] by {}
                    assert forall|x: int| 0 <= x < a.cols@.len() implies (
                    #[trigger] a.cols@[x])@.len() == a.rows() by {
                        assert(cols0[x]@.len() == a.rows());
                    }
                    assert(a.wf());
                    assert forall|x: int| 0 <= x < self.types@.len() && x != t implies (
                    #[trigger] self.types@[x]) == before.types@[x] by {}
                    assert forall|i: RenderLocalId| #[trigger] self.present(i)
                        <==> before.present(i) by {
                        if i.ty.0 < self.types@.len() && i.ty.0 != t {
                            assert(self.types@[i.ty.0 as int] == before.types@[i.ty.0 as int]);
                        }
                    }
                    assert forall|ty: RenderLocalTypeId| #[trigger] self.live(ty) == before.live(
                        ty,
                    ) by {
                        if ty.0 < self.types@.len() && ty.0 != t {
                            assert(self.types@[ty.0 as int] == before.types@[ty.0 as int]);
                        }
                    }
                    assert forall|i: RenderLocalId| #[trigger] before.spent(i) implies self.spent(
                        i,
                    ) by {
                        if i.ty.0 != t {
                            assert(self.types@[i.ty.0 as int] == before.types@[i.ty.0 as int]);
                        }
                    }
                    assert forall|i: RenderLocalId, g: RFieldId| #[trigger] self.value(i, g) == (
                    if i == id && g == f {
                        v@
                    } else {
                        before.value(i, g)
                    }) by {
                        if i.ty.0 < self.types@.len() {
                            if i.ty.0 != t {
                                assert(self.types@[i.ty.0 as int] == before.types@[i.ty.0 as int]);
                            } else if g.0 < a.cols@.len() && g.0 != fi {
                                assert(a.cols@[g.0 as int] == cols0[g.0 as int]);
                            }
                        }
                    }
                }
            }
        }
    }

    /// The entities of a type.
    pub fn live_entities(&self, ty: RenderLocalTypeId) -> (r: Vec<RenderLocalId>)
        requires
            self.wf(),
        ensures
            r@ == self.live(ty),
    {
        let mut out: Vec<RenderLocalId> = Vec::new();
        if ty.0 as usize >= self.types.len() {
            assert(out@ =~= self.live(ty));
            return out;
        }
        let live = self.types[ty.0 as usize].slots.live_slots();
        let mut i: usize = 0;
        while i < live.len()
            invariant
                self.known(ty),
                i <= live@.len(),
                live@ == live_upto(self.at(ty).slots@, self.at(ty).rows() as int),
                out@ =~= self.live(ty).take(i as int),
            decreases live@.len() - i,
        {
            out.push(RenderLocalId { ty, id: live[i].0 as u32, generation: live[i].1 });
            i = i + 1;
        }
        assert(out@ =~= self.live(ty));
        out
    }

    /// The number of entities of a type.
    pub fn live_count(&self, ty: RenderLocalTypeId) -> (r: usize)
        requires
            self.wf(),
        ensures
            r == self.live(ty).len(),
    {
        self.live_entities(ty).len()
    }
}

/// A handle whose entity ended is not the handle of the next one under its id, however many
/// entities come and go: what is spent is not there, and what was just made is not spent.
pub proof fn law_spent_handles_find_nothing(store: LocalStore, id: RenderLocalId, f: RFieldId)
    requires
        store.spent(id),
    ensures
        !store.present(id),
        store.value(id, f) == Val::Null,
{
}

}
