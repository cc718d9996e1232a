//! The committed data: one column per field of each type.
//!
//! An id leads to a row through one indirection that also holds the generation; a reference
//! whose generation no longer matches resolves to nothing. A type either keeps a row for
//! life and leaves holes (`Stable`), or keeps its rows dense by moving the last one into the
//! gap (`Compact`).
use crate::column::copied;
use crate::column::Column;
use crate::entity::EntityTypeId;
use crate::entity::FieldDef;
use crate::entity::FieldId;
use crate::entity::InstanceId;
use crate::entity::FIELD_ALIVE;
use crate::genslots::GenSlots;
use crate::genslots::Slot;
use crate::kernel::SnapshotRead;
use crate::kernel_batch::KernelColumn;
use crate::kernel_batch::KernelColumnSource;
use crate::value::Val;
use crate::value::Value;
use vstd::prelude::*;

verus! {

/// How a type treats the row of a dead instance.
#[derive(Clone, Copy, Debug, PartialEq, Eq, Structural)]
pub enum RowPolicy {
    /// A row keeps its number for life; death leaves a hole that a later instance fills.
    Stable,
    /// Rows stay dense; death moves the last row into the gap.
    Compact,
}

impl Default for RowPolicy {
    fn default() -> (r: RowPolicy)
        ensures
            r == RowPolicy::Stable,
    {
        RowPolicy::Stable
    }
}

/// What is known of an id: the generation of its current or next holder, and its row.
#[derive(Clone, Copy, Debug)]
pub struct IdSlot {
    pub generation: u64,
    pub row: Option<usize>,
}

/// The storage of one entity type.
pub struct TypeStore {
    pub name: String,
    pub fields: Vec<FieldDef>,
    pub singleton: bool,
    pub policy: RowPolicy,
    pub cols: Vec<Column>,
    pub row_id: Vec<u32>,
    pub slots: GenSlots,
    pub id_slot: Vec<IdSlot>,
    pub free_ids: Vec<u32>,
    pub free_rows: Vec<usize>,
}

/// Every column has `n` rows.
pub open spec fn cols_len(cols: Seq<Column>, n: nat) -> bool {
    forall|f: int| 0 <= f < cols.len() ==> (#[trigger] cols[f])@.len() == n
}

impl TypeStore {
    pub open spec fn rows(self) -> nat {
        self.row_id@.len()
    }

    /// An id and its row point at each other.
    pub open spec fn linked(self, id: int, row: int) -> bool {
        &&& 0 <= row < self.rows()
        &&& self.slots@[row].live
        &&& self.slots@[row].generation == self.id_slot@[id].generation
        &&& self.row_id@[row] == id
    }

    pub open spec fn wf(self) -> bool {
        &&& 1 <= self.fields@.len() <= u32::MAX
        &&& !self.fields@[FIELD_ALIVE as int].is_ref
        &&& self.cols@.len() == self.fields@.len()
        &&& cols_len(self.cols@, self.rows())
        &&& self.slots@.len() == self.rows()
        &&& self.id_slot@.len() <= u32::MAX
        &&& forall|id: int|
            0 <= id < self.id_slot@.len() && (#[trigger] self.id_slot@[id]).row is Some
                ==> self.linked(id, self.id_slot@[id].row->0 as int)
        &&& forall|row: int|
            0 <= row < self.rows() && (#[trigger] self.slots@[row]).live ==> {
                &&& self.row_id@[row] < self.id_slot@.len()
                &&& self.id_slot@[self.row_id@[row] as int].row == Some(row as usize)
            }
        &&& self.free_ids@.no_duplicates()
        &&& forall|i: int|
            0 <= i < self.free_ids@.len() ==> {
                &&& (#[trigger] self.free_ids@[i]) < self.id_slot@.len()
                &&& self.id_slot@[self.free_ids@[i] as int].row is None
            }
        &&& self.free_rows@.no_duplicates()
        &&& forall|i: int|
            0 <= i < self.free_rows@.len() ==> {
                &&& (#[trigger] self.free_rows@[i]) < self.rows()
                &&& !self.slots@[self.free_rows@[i] as int].live
            }
        &&& self.policy == RowPolicy::Compact ==> self.free_rows@.len() == 0 && forall|row: int|
            0 <= row < self.rows() ==> (#[trigger] self.slots@[row]).live
    }

    /// The row of a holder, where id and generation match.
    pub open spec fn row_of(self, id: u32, generation: u64) -> Option<int> {
        if id < self.id_slot@.len() && self.id_slot@[id as int].generation == generation {
            match self.id_slot@[id as int].row {
                Some(r) => Some(r as int),
                None => None,
            }
        } else {
            None
        }
    }

    pub open spec fn has(self, id: u32, generation: u64) -> bool {
        self.row_of(id, generation) is Some
    }

    /// What a field of a holder reads. A stale reference and an unknown field read null.
    pub open spec fn read(self, id: u32, generation: u64, field: int) -> Val {
        match self.row_of(id, generation) {
            Some(r) => if 0 <= field < self.cols@.len() {
                self.cols@[field]@[r]
            } else {
                Val::Null
            },
            None => Val::Null,
        }
    }

    /// The reference outlived its instance: nothing it could mean will ever exist again.
    pub open spec fn gone(self, id: u32, generation: u64) -> bool {
        &&& id < self.id_slot@.len()
        &&& {
            ||| generation < self.id_slot@[id as int].generation
            ||| generation == self.id_slot@[id as int].generation
                && self.id_slot@[id as int].row is None && !self.free_ids@.contains(id)
        }
    }

    /// The id that the next instance gets.
    pub open spec fn next_id(self) -> u32 {
        self.layout().next_id()
    }

    pub open spec fn next_generation(self) -> u64 {
        self.layout().next_generation()
    }

    pub open spec fn layout(self) -> Layout {
        Layout {
            row_id: self.row_id@,
            slots: self.slots@,
            id_slot: self.id_slot@,
            free_ids: self.free_ids@,
            free_rows: self.free_rows@,
        }
    }

    /// Another instance can be created.
    pub open spec fn room(self) -> bool {
        self.free_ids@.len() > 0 || self.id_slot@.len() < u32::MAX
    }

    /// Name, fields and policies are those of `other`.
    pub open spec fn same_schema(self, other: TypeStore) -> bool {
        &&& self.name == other.name
        &&& self.fields == other.fields
        &&& self.singleton == other.singleton
        &&& self.policy == other.policy
    }

    pub open spec fn default_of(self, field: int) -> Val {
        self.fields@[field].default@
    }
}

/// Which instance stands in which row, and what is free: the tables of a type without the
/// values of its fields.
pub ghost struct Layout {
    pub row_id: Seq<u32>,
    pub slots: Seq<Slot>,
    pub id_slot: Seq<IdSlot>,
    pub free_ids: Seq<u32>,
    pub free_rows: Seq<usize>,
}

impl Layout {
    /// No instance, no row, and no id used.
    pub open spec fn empty() -> Layout {
        Layout {
            row_id: Seq::empty(),
            slots: Seq::empty(),
            id_slot: Seq::empty(),
            free_ids: Seq::empty(),
            free_rows: Seq::empty(),
        }
    }

    /// The id that the next instance gets: the last one that became free, else a new one.
    pub open spec fn next_id(self) -> u32 {
        if self.free_ids.len() > 0 {
            self.free_ids.last()
        } else {
            self.id_slot.len() as u32
        }
    }

    pub open spec fn next_generation(self) -> u64 {
        if self.free_ids.len() > 0 {
            self.id_slot[self.free_ids.last() as int].generation
        } else {
            0
        }
    }

    /// The next instance goes into a hole: stable rows have one.
    pub open spec fn fills_hole(self, policy: RowPolicy) -> bool {
        policy == RowPolicy::Stable && self.free_rows.len() > 0
    }

    /// The row that the next instance gets: the last hole, else one at the end.
    pub open spec fn next_row(self, policy: RowPolicy) -> usize {
        if self.fills_hole(policy) {
            self.free_rows.last()
        } else {
            self.row_id.len() as usize
        }
    }

    /// One instance more.
    pub open spec fn with_new(self, policy: RowPolicy) -> Layout {
        let id = self.next_id();
        let row = self.next_row(policy);
        let slot = Slot { generation: self.next_generation(), live: true };
        let entry = IdSlot { generation: self.next_generation(), row: Some(row) };
        let hole = self.fills_hole(policy);
        Layout {
            row_id: if hole {
                self.row_id.update(row as int, id)
            } else {
                self.row_id.push(id)
            },
            slots: if hole {
                self.slots.update(row as int, slot)
            } else {
                self.slots.push(slot)
            },
            id_slot: if self.free_ids.len() > 0 {
                self.id_slot.update(id as int, entry)
            } else {
                self.id_slot.push(entry)
            },
            free_ids: if self.free_ids.len() > 0 {
                self.free_ids.drop_last()
            } else {
                self.free_ids
            },
            free_rows: if hole {
                self.free_rows.drop_last()
            } else {
                self.free_rows
            },
        }
    }

    /// The holder of an id is gone. The id is free under its next generation, if there is
    /// one. Stable rows keep their places and leave a hole; of compact rows the last one
    /// moves into the gap.
    pub open spec fn without(self, policy: RowPolicy, id: u32) -> Layout {
        let generation = self.id_slot[id as int].generation;
        let row = self.id_slot[id as int].row->0 as int;
        let spent = generation == u64::MAX;
        let freed = self.id_slot.update(
            id as int,
            IdSlot {
                generation: if spent {
                    generation
                } else {
                    (generation + 1) as u64
                },
                row: None,
            },
        );
        let free_ids = if spent {
            self.free_ids
        } else {
            self.free_ids.push(id)
        };
        match policy {
            RowPolicy::Stable => Layout {
                slots: self.slots.update(
                    row,
                    Slot { generation: self.slots[row].generation, live: false },
                ),
                id_slot: freed,
                free_ids,
                free_rows: self.free_rows.push(row as usize),
                ..self
            },
            RowPolicy::Compact => {
                let moved = self.row_id.last() as int;
                Layout {
                    row_id: self.row_id.update(row, self.row_id.last()).drop_last(),
                    slots: self.slots.update(row, self.slots.last()).drop_last(),
                    id_slot: if row == self.row_id.len() - 1 {
                        freed
                    } else {
                        freed.update(
                            moved,
                            IdSlot { generation: freed[moved].generation, row: Some(row as usize) },
                        )
                    },
                    free_ids,
                    ..self
                }
            },
        }
    }
}

/// Writes the defaults of `fields` into row `r` of all columns.
fn set_row(cols: &mut Vec<Column>, fields: &Vec<FieldDef>, r: usize, n: Ghost<nat>)
    requires
        old(cols)@.len() == fields@.len(),
        cols_len(old(cols)@, n@),
        r < n@,
    ensures
        final(cols)@.len() == old(cols)@.len(),
        forall|f: int|
            0 <= f < final(cols)@.len() ==> (#[trigger] final(cols)@[f])@ == old(
                cols,
            )@[f]@.update(r as int, fields@[f].default@),
{
    let ghost before = cols@;
    let mut i: usize = 0;
    while i < cols.len()
        invariant
            i <= cols@.len(),
            cols@.len() == before.len() == fields@.len(),
            cols_len(before, n@),
            r < n@,
            forall|f: int|
                0 <= f < i ==> (#[trigger] cols@[f])@ == before[f]@.update(
                    r as int,
                    fields@[f].default@,
                ),
            forall|f: int| i <= f < cols@.len() ==> (#[trigger] cols@[f]) == before[f],
        decreases cols@.len() - i,
    {
        let _ = cols[i].set(r, fields[i].default.clone());
        i = i + 1;
    }
}

/// Appends a row with the defaults of `fields` to all columns.
fn push_row(cols: &mut Vec<Column>, fields: &Vec<FieldDef>)
    requires
        old(cols)@.len() == fields@.len(),
    ensures
        final(cols)@.len() == old(cols)@.len(),
        forall|f: int|
            0 <= f < final(cols)@.len() ==> (#[trigger] final(cols)@[f])@ == old(cols)@[f]@.push(
                fields@[f].default@,
            ),
{
    let ghost before = cols@;
    let mut i: usize = 0;
    while i < cols.len()
        invariant
            i <= cols@.len(),
            cols@.len() == before.len() == fields@.len(),
            forall|f: int|
                0 <= f < i ==> (#[trigger] cols@[f])@ == before[f]@.push(fields@[f].default@),
            forall|f: int| i <= f < cols@.len() ==> (#[trigger] cols@[f]) == before[f],
        decreases cols@.len() - i,
    {
        cols[i].push(fields[i].default.clone());
        i = i + 1;
    }
}

/// Empties row `r` of the boxed columns.
fn clear_rows(cols: &mut Vec<Column>, r: usize, n: Ghost<nat>)
    requires
        cols_len(old(cols)@, n@),
        r < n@,
    ensures
        final(cols)@.len() == old(cols)@.len(),
        cols_len(final(cols)@, n@),
        forall|f: int|
            0 <= f < final(cols)@.len() ==> emptied(
                #[trigger] final(cols)@[f],
                old(cols)@[f],
                r as int,
            ),
{
    let ghost before = cols@;
    let mut i: usize = 0;
    while i < cols.len()
        invariant
            i <= cols@.len(),
            cols@.len() == before.len(),
            cols_len(before, n@),
            r < n@,
            forall|f: int| 0 <= f < i ==> emptied(#[trigger] cols@[f], before[f], r as int),
            forall|f: int| i <= f < cols@.len() ==> (#[trigger] cols@[f]) == before[f],
        decreases cols@.len() - i,
    {
        assert(cols@[i as int] == before[i as int]);
        cols[i].clear_row(r);
        i = i + 1;
    }
    assert forall|f: int| 0 <= f < cols@.len() implies (#[trigger] cols@[f])@.len() == n@ by {
        assert(before[f]@.len() == n@);
    }
}

/// A column after its row `r` is emptied: a boxed one holds null there, another is as before.
spec fn emptied(after: Column, before: Column, r: int) -> bool {
    &&& after@ == (if before is Boxed {
        before@.update(r, Val::Null)
    } else {
        before@
    })
    &&& after is Boxed <==> before is Boxed
    &&& forall|x: Val| before.accepts(x) <==> #[trigger] after.accepts(x)
}

/// Moves the last row into row `r` in all columns.
fn swap_remove_rows(cols: &mut Vec<Column>, r: usize, n: Ghost<nat>)
    requires
        cols_len(old(cols)@, n@),
        r < n@,
    ensures
        final(cols)@.len() == old(cols)@.len(),
        forall|f: int|
            0 <= f < final(cols)@.len() ==> (#[trigger] final(cols)@[f])@ == old(
                cols,
            )@[f]@.update(r as int, old(cols)@[f]@.last()).drop_last(),
{
    let ghost before = cols@;
    let mut i: usize = 0;
    while i < cols.len()
        invariant
            i <= cols@.len(),
            cols@.len() == before.len(),
            cols_len(before, n@),
            r < n@,
            forall|f: int|
                0 <= f < i ==> (#[trigger] cols@[f])@ == before[f]@.update(
                    r as int,
                    before[f]@.last(),
                ).drop_last(),
            forall|f: int| i <= f < cols@.len() ==> (#[trigger] cols@[f]) == before[f],
        decreases cols@.len() - i,
    {
        assert(cols@[i as int] == before[i as int]);
        cols[i].swap_remove(r);
        i = i + 1;
    }
}

impl TypeStore {
    /// Holders of ids other than `id` read as in `other`.
    pub open spec fn others_kept(self, other: TypeStore, id: u32) -> bool {
        &&& forall|i: u32, g: u64|
            i != id ==> (#[trigger] self.has(i, g) <==> other.has(i, g)) && (self.gone(i, g)
                <==> other.gone(i, g))
        &&& forall|i: u32, g: u64, f: int|
            i != id ==> #[trigger] self.read(i, g, f) == other.read(i, g, f)
    }

    pub fn resolve(&self, id: u32, generation: u64) -> (r: Option<usize>)
        requires
            self.wf(),
        ensures
            r is Some <==> self.has(id, generation),
            r is Some ==> self.row_of(id, generation) == Some(r->0 as int) && r->0 < self.rows(),
    {
        let i = id as usize;
        if i < self.id_slot.len() && self.id_slot[i].generation == generation {
            self.id_slot[i].row
        } else {
            None
        }
    }

    pub fn has_room(&self) -> (r: bool)
        ensures
            r == self.room(),
    {
        self.free_ids.len() > 0 || self.id_slot.len() < u32::MAX as usize
    }

    /// Creates an instance whose fields hold their defaults.
    pub fn allocate(&mut self) -> (r: (u32, u64))
        requires
            old(self).wf(),
            old(self).room(),
        ensures
            final(self).wf(),
            final(self).same_schema(*old(self)),
            r.0 == old(self).next_id(),
            r.1 == old(self).next_generation(),
            forall|g: u64| !#[trigger] old(self).has(r.0, g),
            !old(self).gone(r.0, r.1),
            forall|g: u64| #[trigger] final(self).has(r.0, g) <==> g == r.1,
            forall|f: int|
                0 <= f < final(self).fields@.len() ==> #[trigger] final(self).read(r.0, r.1, f)
                    == final(self).default_of(f),
            final(self).others_kept(*old(self), r.0),
            forall|g: u64| old(self).gone(r.0, g) ==> #[trigger] final(self).gone(r.0, g),
            final(self).layout() == old(self).layout().with_new(old(self).policy),
    {
        let ghost before = *self;
        let id: u32 = if self.free_ids.len() > 0 {
            self.free_ids.pop().unwrap()
        } else {
            let n = self.id_slot.len();
            self.id_slot.push(IdSlot { generation: 0, row: None });
            n as u32
        };
        proof {
            if before.free_ids@.len() > 0 {
                let k = before.free_ids@.len() - 1;
                assert(before.free_ids@[k] == id);
                assert(self.free_ids@ =~= before.free_ids@.take(k));
                assert(!self.free_ids@.contains(id));
            } else {
                assert forall|i: int| 0 <= i < self.free_ids@.len() implies self.free_ids@[i]
                    != id by {}
            }
        }
        let ghost mid = *self;
        let generation = self.id_slot[id as usize].generation;
        let hole: Option<usize> = match self.policy {
            RowPolicy::Stable => self.free_rows.pop(),
            RowPolicy::Compact => None,
        };
        let ghost rows = mid.rows();
        let row: usize = match hole {
            Some(r) => {
                proof {
                    let k = mid.free_rows@.len() - 1;
                    assert(mid.free_rows@[k] == r);
                    assert(self.free_rows@ =~= mid.free_rows@.take(k));
                    assert(!self.free_rows@.contains(r));
                }
                set_row(&mut self.cols, &self.fields, r, Ghost(rows));
                self.row_id.set(r, id);
                self.slots.activate(r, generation);
                r
            },
            None => {
                push_row(&mut self.cols, &self.fields);
                self.row_id.push(id);
                self.slots.push_live(generation)
            },
        };
        self.id_slot.set(id as usize, IdSlot { generation, row: Some(row) });
        proof {
            assert forall|i: int|
                0 <= i < self.id_slot@.len() && (#[trigger] self.id_slot@[i]).row
                    is Some implies self.linked(i, self.id_slot@[i].row->0 as int) by {
                if i != id {
                    assert(self.id_slot@[i] == mid.id_slot@[i]);
                    assert(before.id_slot@[i] == mid.id_slot@[i]);
                    let x = before.id_slot@[i].row->0 as int;
                    assert(before.linked(i, x));
                    assert(x != row);
                    assert(self.slots@[x] == before.slots@[x]);
                }
            }
            assert forall|x: int| 0 <= x < self.rows() && (#[trigger] self.slots@[x]).live implies {
                &&& self.row_id@[x] < self.id_slot@.len()
                &&& self.id_slot@[self.row_id@[x] as int].row == Some(x as usize)
            } by {
                if x != row {
                    assert(self.slots@[x] == before.slots@[x]);
                    assert(before.slots@[x].live);
                    let j = before.row_id@[x] as int;
                    assert(before.id_slot@[j].row is Some);
                    assert(j != id);
                    assert(self.id_slot@[j] == before.id_slot@[j]);
                }
            }
            assert forall|i: int| 0 <= i < self.free_ids@.len() implies {
                &&& (#[trigger] self.free_ids@[i]) < self.id_slot@.len()
                &&& self.id_slot@[self.free_ids@[i] as int].row is None
            } by {
                assert(self.free_ids@[i] == before.free_ids@[i]);
                assert(self.free_ids@[i] != id);
            }
            assert forall|i: int| 0 <= i < self.free_rows@.len() implies {
                &&& (#[trigger] self.free_rows@[i]) < self.rows()
                &&& !self.slots@[self.free_rows@[i] as int].live
            } by {
                assert(self.free_rows@[i] == before.free_rows@[i]);
                assert(self.free_rows@[i] != row);
            }
            assert(self.wf());
            assert forall|i: u32, g: u64| i != id implies (#[trigger] self.has(i, g) <==> before.has(
                i,
                g,
            )) && (self.gone(i, g) <==> before.gone(i, g)) by {
                if i < before.id_slot@.len() {
                    assert(self.id_slot@[i as int] == before.id_slot@[i as int]);
                    self.lemma_free_after_pop(before, i);
                }
            }
            assert forall|i: u32, g: u64, f: int| i != id implies #[trigger] self.read(i, g, f)
                == before.read(i, g, f) by {
                if i < before.id_slot@.len() {
                    assert(self.id_slot@[i as int] == before.id_slot@[i as int]);
                    if before.id_slot@[i as int].row is Some {
                        let x = before.id_slot@[i as int].row->0 as int;
                        assert(before.linked(i as int, x));
                        assert(x != row);
                        if 0 <= f < self.cols@.len() {
                            assert(self.cols@[f]@[x] == before.cols@[f]@[x]);
                        }
                    }
                }
            }
            assert forall|f: int| 0 <= f < self.fields@.len() implies #[trigger] self.read(
                id,
                generation,
                f,
            ) == self.default_of(f) by {
                assert(self.cols@[f]@[row as int] == self.fields@[f].default@);
            }
            let l = before.layout().with_new(before.policy);
            assert(self.row_id@ =~= l.row_id);
            assert(self.slots@ =~= l.slots);
            assert(self.id_slot@ =~= l.id_slot);
            assert(self.free_ids@ =~= l.free_ids);
            assert(self.free_rows@ =~= l.free_rows);
        }
        (id, generation)
    }

    /// Popping the last free id leaves the membership of every other id as it was.
    proof fn lemma_free_after_pop(self, before: TypeStore, i: u32)
        requires
            before.free_ids@.len() > 0 ==> self.free_ids@ == before.free_ids@.drop_last() && i
                != before.free_ids@.last(),
            before.free_ids@.len() == 0 ==> self.free_ids@ == before.free_ids@,
        ensures
            self.free_ids@.contains(i) <==> before.free_ids@.contains(i),
    {
        if before.free_ids@.contains(i) {
            let k = choose|k: int| 0 <= k < before.free_ids@.len() && before.free_ids@[k] == i;
            if before.free_ids@.len() > 0 {
                assert(self.free_ids@[k] == i);
            }
        }
        if self.free_ids@.contains(i) {
            let k = choose|k: int| 0 <= k < self.free_ids@.len() && self.free_ids@[k] == i;
            assert(before.free_ids@[k] == i);
        }
    }
}

impl TypeStore {
    /// Removes an instance. Its id returns to the pool under the next generation; an id whose
    /// generations are used up stays out of it.
    pub fn release(&mut self, id: u32, generation: u64)
        requires
            old(self).wf(),
        ensures
            final(self).wf(),
            final(self).same_schema(*old(self)),
            !old(self).has(id, generation) ==> *final(self) == *old(self),
            old(self).has(id, generation) ==> {
                &&& forall|g: u64| !#[trigger] final(self).has(id, g)
                &&& final(self).gone(id, generation)
                &&& final(self).others_kept(*old(self), id)
                &&& forall|g: u64| old(self).gone(id, g) ==> #[trigger] final(self).gone(id, g)
                &&& final(self).layout() == old(self).layout().without(old(self).policy, id)
            },
    {
        let r = match self.resolve(id, generation) {
            Some(r) => r,
            None => {
                return;
            },
        };
        let ghost before = *self;
        let ghost rows = before.rows();
        proof {
            assert(before.id_slot@[id as int].row == Some(r));
            assert(before.linked(id as int, r as int));
            assert(!before.free_ids@.contains(id)) by {
                if before.free_ids@.contains(id) {
                    let k = choose|k: int|
                        0 <= k < before.free_ids@.len() && before.free_ids@[k] == id;
                    assert(before.id_slot@[before.free_ids@[k] as int].row is None);
                }
            }
        }
        if generation < u64::MAX {
            self.id_slot.set(id as usize, IdSlot { generation: generation + 1, row: None });
            self.free_ids.push(id);
        } else {
            self.id_slot.set(id as usize, IdSlot { generation, row: None });
        }
        proof {
            assert forall|i: u32| i != id implies (self.free_ids@.contains(i)
                <==> before.free_ids@.contains(i)) by {
                if before.free_ids@.contains(i) {
                    let k = choose|k: int|
                        0 <= k < before.free_ids@.len() && before.free_ids@[k] == i;
                    assert(self.free_ids@[k] == i);
                }
                if self.free_ids@.contains(i) {
                    let k = choose|k: int| 0 <= k < self.free_ids@.len() && self.free_ids@[k] == i;
                    assert(before.free_ids@[k] == i);
                }
            }
            assert forall|i: int| 0 <= i < self.free_ids@.len() implies {
                &&& (#[trigger] self.free_ids@[i]) < self.id_slot@.len()
                &&& self.id_slot@[self.free_ids@[i] as int].row is None
            } by {
                if i < before.free_ids@.len() {
                    assert(self.free_ids@[i] == before.free_ids@[i]);
                }
            }
            if generation < u64::MAX {
                assert(self.free_ids@.no_duplicates()) by {
                    assert forall|i: int, j: int|
                        0 <= i < self.free_ids@.len() && 0 <= j < self.free_ids@.len() && i
                            != j implies self.free_ids@[i] != self.free_ids@[j] by {
                        assert(!before.free_ids@.contains(id));
                        if i < before.free_ids@.len() {
                            assert(before.free_ids@.contains(before.free_ids@[i]));
                        }
                        if j < before.free_ids@.len() {
                            assert(before.free_ids@.contains(before.free_ids@[j]));
                        }
                    }
                }
            }
        }
        match self.policy {
            RowPolicy::Stable => {
                clear_rows(&mut self.cols, r, Ghost(rows));
                self.slots.kill(r);
                self.free_rows.push(r);
                proof {
                    assert(self.free_rows@.no_duplicates()) by {
                        assert(!before.free_rows@.contains(r)) by {
                            if before.free_rows@.contains(r) {
                                let k = choose|k: int|
                                    0 <= k < before.free_rows@.len() && before.free_rows@[k] == r;
                                assert(!before.slots@[before.free_rows@[k] as int].live);
                            }
                        }
                        assert forall|i: int, j: int|
                            0 <= i < self.free_rows@.len() && 0 <= j < self.free_rows@.len() && i
                                != j implies self.free_rows@[i] != self.free_rows@[j] by {
                            if i < before.free_rows@.len() {
                                assert(before.free_rows@.contains(before.free_rows@[i]));
                            }
                            if j < before.free_rows@.len() {
                                assert(before.free_rows@.contains(before.free_rows@[j]));
                            }
                        }
                    }
                    assert forall|i: int| 0 <= i < self.free_rows@.len() implies {
                        &&& (#[trigger] self.free_rows@[i]) < self.rows()
                        &&& !self.slots@[self.free_rows@[i] as int].live
                    } by {
                        if i < before.free_rows@.len() {
                            assert(self.free_rows@[i] == before.free_rows@[i]);
                        }
                    }
                    assert forall|i: int|
                        0 <= i < self.id_slot@.len() && (#[trigger] self.id_slot@[i]).row
                            is Some implies self.linked(i, self.id_slot@[i].row->0 as int) by {
                        assert(i != id);
                        assert(self.id_slot@[i] == before.id_slot@[i]);
                        let x = before.id_slot@[i].row->0 as int;
                        assert(before.linked(i, x));
                        assert(x != r);
                    }
                    assert forall|x: int|
                        0 <= x < self.rows() && (#[trigger] self.slots@[x]).live implies {
                        &&& self.row_id@[x] < self.id_slot@.len()
                        &&& self.id_slot@[self.row_id@[x] as int].row == Some(x as usize)
                    } by {
                        assert(x != r);
                        assert(self.slots@[x] == before.slots@[x]);
                        assert(before.slots@[x].live);
                        assert(before.row_id.len() == rows);
                        assert(self.row_id@[x] != id);
                    }
                    assert(self.wf());
                    assert forall|i: u32, g: u64, f: int| i != id implies #[trigger] self.read(
                        i,
                        g,
                        f,
                    ) == before.read(i, g, f) by {
                        if i < before.id_slot@.len() {
                            assert(self.id_slot@[i as int] == before.id_slot@[i as int]);
                            if before.id_slot@[i as int].row is Some {
                                let x = before.id_slot@[i as int].row->0 as int;
                                assert(before.linked(i as int, x));
                                assert(x != r);
                                if 0 <= f < self.cols@.len() {
                                    assert(emptied(self.cols@[f], before.cols@[f], r as int));
                                    assert(self.cols@[f]@[x] == before.cols@[f]@[x]);
                                }
                            }
                        }
                    }
                }
            },
            RowPolicy::Compact => {
                let last: usize = self.row_id.len() - 1;
                let moved = self.row_id[last];
                let ghost lx = last as int;
                swap_remove_rows(&mut self.cols, r, Ghost(rows));
                self.row_id.swap_remove(r);
                self.slots.swap_remove(r);
                proof {
                    assert(before.slots@[lx].live);
                    assert(before.id_slot@[moved as int].row == Some(last));
                }
                if r != last {
                    let g = self.id_slot[moved as usize].generation;
                    self.id_slot.set(moved as usize, IdSlot { generation: g, row: Some(r) });
                }
                proof {
                    assert forall|i: int|
                        0 <= i < self.id_slot@.len() && (#[trigger] self.id_slot@[i]).row
                            is Some implies self.linked(i, self.id_slot@[i].row->0 as int) by {
                        assert(i != id);
                        assert(before.id_slot@[i].row is Some);
                        let x = before.id_slot@[i].row->0 as int;
                        assert(before.linked(i, x));
                        assert(x != r);
                        if x == lx {
                            assert(i == moved);
                        }
                    }
                    assert forall|x: int| 0 <= x < self.rows() && (#[trigger] self.slots@[x]).live implies {
                        &&& self.row_id@[x] < self.id_slot@.len()
                        &&& self.id_slot@[self.row_id@[x] as int].row == Some(x as usize)
                    } by {
                        if x != r {
                            assert(self.slots@[x] == before.slots@[x]);
                            assert(before.slots@[x].live);
                            assert(self.row_id@[x] == before.row_id@[x]);
                        }
                    }
                    assert forall|i: int| 0 <= i < self.free_ids@.len() implies {
                        &&& (#[trigger] self.free_ids@[i]) < self.id_slot@.len()
                        &&& self.id_slot@[self.free_ids@[i] as int].row is None
                    } by {
                        if i < before.free_ids@.len() {
                            assert(self.free_ids@[i] == before.free_ids@[i]);
                            assert(before.id_slot@[before.free_ids@[i] as int].row is None);
                        }
                        assert(self.free_ids@[i] != moved || r == last);
                    }
                    assert forall|x: int| 0 <= x < self.rows() implies (
                    #[trigger] self.slots@[x]).live by {
                        assert(before.slots@[x].live);
                    }
                    assert(cols_len(self.cols@, self.rows()));
                    assert(self.wf());
                    assert forall|i: u32, g: u64, f: int| i != id implies #[trigger] self.read(
                        i,
                        g,
                        f,
                    ) == before.read(i, g, f) by {
                        if i < before.id_slot@.len() && before.id_slot@[i as int].row is Some {
                            let x = before.id_slot@[i as int].row->0 as int;
                            assert(before.linked(i as int, x));
                            assert(x != r);
                            if x == lx {
                                assert(i == moved);
                            }
                            if 0 <= f < self.cols@.len() {
                                assert(self.cols@[f]@ == before.cols@[f]@.update(
                                    r as int,
                                    before.cols@[f]@.last(),
                                ).drop_last());
                            }
                        }
                    }
                }
            },
        }
        proof {
            assert forall|i: u32, g: u64| i != id implies (#[trigger] self.has(i, g)
                <==> before.has(i, g)) && (self.gone(i, g) <==> before.gone(i, g)) by {
                assert(self.free_ids@.contains(i) <==> before.free_ids@.contains(i));
            }
            assert(self.id_slot@[id as int].row is None);
            let l = before.layout().without(before.policy, id);
            assert(self.row_id@ =~= l.row_id);
            assert(self.slots@ =~= l.slots);
            assert(self.id_slot@ =~= l.id_slot);
            assert(self.free_ids@ =~= l.free_ids);
            assert(self.free_rows@ =~= l.free_rows);
        }
    }

    /// Writes a field of an instance. A stale reference changes nothing.
    pub fn set(&mut self, id: u32, generation: u64, field: usize, v: Value)
        requires
            old(self).wf(),
            field < old(self).fields@.len(),
        ensures
            final(self).wf(),
            final(self).same_schema(*old(self)),
            final(self).layout() == old(self).layout(),
            forall|i: u32, g: u64, f: int| #[trigger]
                final(self).read(i, g, f) == (if i == id && g == generation && f == field && old(
                    self,
                ).has(i, g) {
                    v@
                } else {
                    old(self).read(i, g, f)
                }),
    {
        let ghost before = *self;
        if let Some(r) = self.resolve(id, generation) {
            let _ = self.cols[field].set(r, v);
            proof {
                assert(self.cols@ =~= before.cols@.update(field as int, self.cols@[field as int]));
                assert forall|f: int| 0 <= f < self.cols@.len() implies (
                #[trigger] self.cols@[f])@.len() == self.rows() by {
                    if f != field {
                        assert(self.cols@[f] == before.cols@[f]);
                    }
                }
                assert forall|i: int|
                    0 <= i < self.id_slot@.len() && (#[trigger] self.id_slot@[i]).row
                        is Some implies self.linked(i, self.id_slot@[i].row->0 as int) by {
                    assert(before.linked(i, before.id_slot@[i].row->0 as int));
                }
                assert forall|i: u32, g: u64, f: int| #[trigger] self.read(i, g, f) == (if i == id
                    && g == generation && f == field && before.has(i, g) {
                    v@
                } else {
                    before.read(i, g, f)
                }) by {
                    if i < self.id_slot@.len() && self.id_slot@[i as int].row is Some {
                        let x = self.id_slot@[i as int].row->0 as int;
                        assert(before.linked(i as int, x));
                        if 0 <= f < self.cols@.len() && f != field {
                            assert(self.cols@[f] == before.cols@[f]);
                        }
                    }
                }
            }
        }
    }

    /// Reads a field of an instance.
    pub fn get(&self, id: u32, generation: u64, field: usize) -> (r: Value)
        requires
            self.wf(),
        ensures
            r@ == self.read(id, generation, field as int),
    {
        match self.resolve(id, generation) {
            Some(row) => if field < self.cols.len() {
                self.cols[field].get(row)
            } else {
                Value::Null
            },
            None => Value::Null,
        }
    }
}

/// The instances with a true `_alive` among the first `n` rows.
pub open spec fn alive_upto(t: TypeStore, ty: EntityTypeId, n: int) -> Seq<InstanceId>
    decreases n,
{
    if n <= 0 {
        Seq::empty()
    } else if t.slots@[n - 1].live && t.cols@[FIELD_ALIVE as int]@[n - 1] == Val::Bool(true) {
        alive_upto(t, ty, n - 1).push(
            InstanceId { ty, id: t.row_id@[n - 1], generation: t.slots@[n - 1].generation },
        )
    } else {
        alive_upto(t, ty, n - 1)
    }
}

/// The committed data of all types. While calculations run it is only read.
pub struct Store {
    pub types: Vec<TypeStore>,
}

impl Store {
    pub open spec fn wf(self) -> bool {
        &&& self.types@.len() <= u32::MAX
        &&& forall|t: int| 0 <= t < self.types@.len() ==> (#[trigger] self.types@[t]).wf()
    }

    pub open spec fn known(self, ty: EntityTypeId) -> bool {
        ty.0 < self.types@.len()
    }

    pub open spec fn at(self, ty: EntityTypeId) -> TypeStore {
        self.types@[ty.0 as int]
    }

    pub open spec fn has(self, inst: InstanceId) -> bool {
        self.known(inst.ty) && self.at(inst.ty).has(inst.id, inst.generation)
    }

    /// The value of a cell. A stale reference and an unknown field read null.
    pub open spec fn value(self, inst: InstanceId, field: FieldId) -> Val {
        if self.known(inst.ty) {
            self.at(inst.ty).read(inst.id, inst.generation, field.0 as int)
        } else {
            Val::Null
        }
    }

    pub open spec fn is_alive(self, inst: InstanceId) -> bool {
        self.value(inst, FieldId(FIELD_ALIVE)) == Val::Bool(true)
    }

    /// The reference outlived its instance.
    pub open spec fn gone(self, inst: InstanceId) -> bool {
        self.known(inst.ty) && self.at(inst.ty).gone(inst.id, inst.generation)
    }

    pub open spec fn instances(self, ty: EntityTypeId) -> Seq<InstanceId> {
        if self.known(ty) {
            alive_upto(self.at(ty), ty, self.at(ty).rows() as int)
        } else {
            Seq::empty()
        }
    }

    pub open spec fn field_known(self, ty: EntityTypeId, field: FieldId) -> bool {
        self.known(ty) && field.0 < self.at(ty).fields@.len()
    }

    /// Types, fields and policies are those of `other`.
    pub open spec fn same_schema(self, other: Store) -> bool {
        &&& self.types@.len() == other.types@.len()
        &&& forall|t: int|
            0 <= t < self.types@.len() ==> (#[trigger] self.types@[t]).same_schema(other.types@[t])
    }

    /// Every type but `ty` is as in `other`, rows, ids, values and all.
    pub open spec fn only_type(self, other: Store, ty: EntityTypeId) -> bool {
        &&& self.types@.len() == other.types@.len()
        &&& forall|t: EntityTypeId|
            other.known(t) && t != ty ==> #[trigger] self.at(t) == other.at(t)
    }

    /// No instance changed its row, and what is free is free as in `other`.
    pub open spec fn same_layouts(self, other: Store) -> bool {
        &&& self.types@.len() == other.types@.len()
        &&& forall|t: EntityTypeId|
            other.known(t) ==> (#[trigger] self.at(t)).layout() == other.at(t).layout()
    }

    /// As in `other`, but for one instance more of `ty`.
    pub open spec fn layouts_with(self, other: Store, ty: EntityTypeId) -> bool {
        &&& self.types@.len() == other.types@.len()
        &&& forall|t: EntityTypeId|
            other.known(t) ==> (#[trigger] self.at(t)).layout() == (if t == ty {
                other.at(t).layout().with_new(other.at(t).policy)
            } else {
                other.at(t).layout()
            })
    }

    /// As in `other`, but for an instance that is gone.
    pub open spec fn layouts_without(self, other: Store, inst: InstanceId) -> bool {
        &&& self.types@.len() == other.types@.len()
        &&& forall|t: EntityTypeId|
            other.known(t) ==> (#[trigger] self.at(t)).layout() == (if t == inst.ty {
                other.at(t).layout().without(other.at(t).policy, inst.id)
            } else {
                other.at(t).layout()
            })
    }

    /// Every instance and cell that is no part of `inst` is as in `other`.
    pub open spec fn others_kept(self, other: Store, inst: InstanceId) -> bool {
        &&& forall|i: InstanceId|
            i.ty != inst.ty || i.id != inst.id ==> (#[trigger] self.has(i) <==> other.has(i))
        &&& forall|i: InstanceId, f: FieldId|
            i.ty != inst.ty || i.id != inst.id ==> #[trigger] self.value(i, f) == other.value(i, f)
    }

    /// No reference that outlived its instance comes back to life.
    pub open spec fn gone_kept(self, other: Store) -> bool {
        forall|i: InstanceId| other.gone(i) ==> #[trigger] self.gone(i)
    }

    pub fn new() -> (r: Store)
        ensures
            r.wf(),
            r.types@.len() == 0,
    {
        Store { types: Vec::new() }
    }

    /// Adds a type without instances.
    pub fn add_type(
        &mut self,
        name: &str,
        fields: Vec<FieldDef>,
        singleton: bool,
        policy: RowPolicy,
    ) -> (r: EntityTypeId)
        requires
            old(self).wf(),
            old(self).types@.len() < u32::MAX,
            1 <= fields@.len() <= u32::MAX,
            !fields@[FIELD_ALIVE as int].is_ref,
        ensures
            final(self).wf(),
            r.0 == old(self).types@.len(),
            final(self).types@.len() == old(self).types@.len() + 1,
            final(self).types@.drop_last() == old(self).types@,
            final(self).at(r).name@ == name@,
            final(self).at(r).fields == fields,
            final(self).at(r).singleton == singleton,
            final(self).at(r).policy == policy,
            final(self).at(r).layout() == Layout::empty(),
    {
        let n = self.types.len();
        let mut cols: Vec<Column> = Vec::new();
        let mut i: usize = 0;
        while i < fields.len()
            invariant
                i <= fields@.len(),
                cols@.len() == i,
                cols_len(cols@, 0),
            decreases fields@.len() - i,
        {
            cols.push(Column::with_default(&fields[i].default, 0));
            i = i + 1;
        }
        self.types.push(
            TypeStore {
                name: name.to_owned(),
                fields,
                singleton,
                policy,
                cols,
                row_id: Vec::new(),
                slots: GenSlots::new(),
                id_slot: Vec::new(),
                free_ids: Vec::new(),
                free_rows: Vec::new(),
            },
        );
        proof {
            assert(self.types@.drop_last() =~= old(self).types@);
            let l = self.types@[n as int].layout();
            assert(l.row_id =~= Seq::empty());
            assert(l.slots =~= Seq::empty());
            assert(l.id_slot =~= Seq::empty());
            assert(l.free_ids =~= Seq::empty());
            assert(l.free_rows =~= Seq::empty());
        }
        EntityTypeId(n as u32)
    }

    /// The first field of the type with this name.
    pub fn try_field(&self, ty: EntityTypeId, name: &String) -> (r: Option<FieldId>)
        requires
            self.wf(),
            self.known(ty),
        ensures
            r is Some ==> {
                &&& self.field_known(ty, r->0)
                &&& self.at(ty).fields@[(r->0).0 as int].name@ == name@
                &&& forall|i: int|
                    0 <= i < (r->0).0 ==> (#[trigger] self.at(ty).fields@[i]).name@ != name@
            },
            r is None ==> forall|i: int|
                0 <= i < self.at(ty).fields@.len() ==> (#[trigger] self.at(ty).fields@[i]).name@
                    != name@,
    {
        let t = &self.types[ty.0 as usize];
        let mut i: usize = 0;
        while i < t.fields.len()
            invariant
                i <= t.fields@.len(),
                t.fields@.len() <= u32::MAX,
                self.known(ty),
                *t == self.at(ty),
                forall|j: int| 0 <= j < i ==> (#[trigger] t.fields@[j]).name@ != name@,
            decreases t.fields@.len() - i,
        {
            if t.fields[i].name == *name {
                return Some(FieldId(i as u32));
            }
            i = i + 1;
        }
        None
    }

    pub fn is_ref_field(&self, ty: EntityTypeId, field: FieldId) -> (r: bool)
        requires
            self.field_known(ty, field),
        ensures
            r == self.at(ty).fields@[field.0 as int].is_ref,
    {
        self.types[ty.0 as usize].fields[field.0 as usize].is_ref
    }

    /// Reads a cell of the committed data.
    pub fn read(&self, inst: InstanceId, field: FieldId) -> (r: Value)
        requires
            self.wf(),
        ensures
            r@ == self.value(inst, field),
    {
        let t = inst.ty.0 as usize;
        if t < self.types.len() {
            self.types[t].get(inst.id, inst.generation, field.0 as usize)
        } else {
            Value::Null
        }
    }

    pub fn alive(&self, inst: InstanceId) -> (r: bool)
        requires
            self.wf(),
        ensures
            r == self.is_alive(inst),
    {
        matches!(self.read(inst, FieldId(FIELD_ALIVE)), Value::Bool(true))
    }

    /// The instance exists, whatever its `_alive` says.
    pub fn contains(&self, inst: InstanceId) -> (r: bool)
        requires
            self.wf(),
        ensures
            r == self.has(inst),
    {
        let t = inst.ty.0 as usize;
        t < self.types.len() && self.types[t].resolve(inst.id, inst.generation).is_some()
    }

    /// All alive instances of a type, in row order. A type that is not registered has none.
    pub fn alive_instances(&self, ty: EntityTypeId) -> (r: Vec<InstanceId>)
        requires
            self.wf(),
        ensures
            r@ == self.instances(ty),
    {
        if ty.0 as usize >= self.types.len() {
            return Vec::new();
        }
        let t = &self.types[ty.0 as usize];
        let mut out: Vec<InstanceId> = Vec::new();
        let n = t.row_id.len();
        let mut i: usize = 0;
        while i < n
            invariant
                *t == self.at(ty),
                t.wf(),
                n == t.rows(),
                i <= n,
                out@ == alive_upto(*t, ty, i as int),
            decreases n - i,
        {
            assert(t.cols@[0]@.len() == n);
            if t.slots.is_live(i) && matches!(
                t.cols[FIELD_ALIVE as usize].get(i),
                Value::Bool(true),
            ) {
                out.push(
                    InstanceId { ty, id: t.row_id[i], generation: t.slots.generation(i) },
                );
            }
            i = i + 1;
        }
        out
    }

    /// Writes a cell. A stale reference changes nothing.
    pub fn set(&mut self, inst: InstanceId, field: FieldId, v: Value)
        requires
            old(self).wf(),
            old(self).has(inst) ==> old(self).field_known(inst.ty, field),
        ensures
            final(self).wf(),
            final(self).same_schema(*old(self)),
            final(self).gone_kept(*old(self)),
            forall|i: InstanceId| #[trigger] final(self).has(i) <==> old(self).has(i),
            forall|i: InstanceId, f: FieldId| #[trigger]
                final(self).value(i, f) == (if i == inst && f == field && old(self).has(inst) {
                    v@
                } else {
                    old(self).value(i, f)
                }),
            final(self).only_type(*old(self), inst.ty),
            final(self).same_layouts(*old(self)),
    {
        let ghost before = *self;
        if self.contains(inst) {
            let t = inst.ty.0 as usize;
            let f = field.0 as usize;
            self.types[t].set(inst.id, inst.generation, f, v);
            proof {
                assert forall|x: int| 0 <= x < self.types@.len() && x != t implies (
                #[trigger] self.types@[x]) == before.types@[x] by {}
                assert forall|i: InstanceId, g: FieldId| #[trigger] self.value(i, g) == (if i
                    == inst && g == field && before.has(inst) {
                    v@
                } else {
                    before.value(i, g)
                }) by {
                    if i.ty.0 < self.types@.len() {
                        if i.ty.0 != t {
                            assert(self.types@[i.ty.0 as int] == before.types@[i.ty.0 as int]);
                        } else {
                            assert(i.ty == inst.ty);
                            assert(self.at(inst.ty).read(i.id, i.generation, g.0 as int) == (if i.id
                                == inst.id && i.generation == inst.generation && g.0 == f {
                                v@
                            } else {
                                before.at(inst.ty).read(i.id, i.generation, g.0 as int)
                            }));
                        }
                    }
                }
            }
        }
    }

    /// Creates an instance whose fields hold their defaults.
    pub fn allocate(&mut self, ty: EntityTypeId) -> (r: InstanceId)
        requires
            old(self).wf(),
            old(self).known(ty),
            old(self).at(ty).room(),
        ensures
            final(self).wf(),
            final(self).same_schema(*old(self)),
            r.ty == ty,
            r.id == old(self).at(ty).next_id(),
            r.generation == old(self).at(ty).next_generation(),
            forall|i: InstanceId| i.ty == ty && i.id == r.id ==> !#[trigger] old(self).has(i),
            forall|i: InstanceId|
                i.ty == ty && i.id == r.id ==> (#[trigger] final(self).has(i) <==> i == r),
            !old(self).gone(r),
            forall|f: FieldId|
                f.0 < final(self).at(ty).fields@.len() ==> #[trigger] final(self).value(r, f)
                    == final(self).at(ty).default_of(f.0 as int),
            final(self).others_kept(*old(self), r),
            final(self).gone_kept(*old(self)),
            final(self).only_type(*old(self), ty),
            final(self).layouts_with(*old(self), ty),
    {
        let ghost before = *self;
        let t = ty.0 as usize;
        let (id, generation) = self.types[t].allocate();
        let r = InstanceId { ty, id, generation };
        proof {
            self.lemma_one_type(before, ty, r);
            assert forall|i: InstanceId| before.gone(i) implies #[trigger] self.gone(i) by {
                if i.ty == ty {
                    if i.id == id {
                        assert(before.at(ty).gone(id, i.generation));
                        assert(self.at(ty).gone(id, i.generation));
                    } else {
                        assert(self.at(ty).has(i.id, i.generation) <==> before.at(ty).has(
                            i.id,
                            i.generation,
                        ));
                    }
                } else {
                    assert(self.types@[i.ty.0 as int] == before.types@[i.ty.0 as int]);
                }
            }
            assert forall|i: InstanceId| i.ty == ty && i.id == r.id implies !#[trigger] before.has(
                i,
            ) by {
                assert(!before.at(ty).has(id, i.generation));
            }
            assert forall|i: InstanceId| i.ty == ty && i.id == r.id implies (
            #[trigger] self.has(i) <==> i == r) by {
                assert(self.at(ty).has(id, i.generation) <==> i.generation == generation);
            }
        }
        r
    }

    proof fn lemma_one_type(self, before: Store, ty: EntityTypeId, inst: InstanceId)
        requires
            before.wf(),
            before.known(ty),
            inst.ty == ty,
            self.types@ == before.types@.update(ty.0 as int, self.types@[ty.0 as int]),
            self.at(ty).wf(),
            self.at(ty).same_schema(before.at(ty)),
            self.at(ty).others_kept(before.at(ty), inst.id),
        ensures
            self.wf(),
            self.same_schema(before),
            self.others_kept(before, inst),
    {
        assert forall|i: InstanceId|
            i.ty != inst.ty || i.id != inst.id implies (#[trigger] self.has(i) <==> before.has(
            i,
        )) by {
            if i.ty == ty {
                assert(self.at(ty).has(i.id, i.generation) <==> before.at(ty).has(
                    i.id,
                    i.generation,
                ));
            } else if i.ty.0 < self.types@.len() {
                assert(self.types@[i.ty.0 as int] == before.types@[i.ty.0 as int]);
            }
        }
        assert forall|i: InstanceId, f: FieldId|
            i.ty != inst.ty || i.id != inst.id implies #[trigger] self.value(i, f)
            == before.value(i, f) by {
            if i.ty == ty {
                assert(self.at(ty).read(i.id, i.generation, f.0 as int) == before.at(ty).read(
                    i.id,
                    i.generation,
                    f.0 as int,
                ));
            } else if i.ty.0 < self.types@.len() {
                assert(self.types@[i.ty.0 as int] == before.types@[i.ty.0 as int]);
            }
        }
    }

    /// Removes an instance. A stale reference changes nothing.
    pub fn release(&mut self, inst: InstanceId)
        requires
            old(self).wf(),
        ensures
            final(self).wf(),
            final(self).same_schema(*old(self)),
            final(self).gone_kept(*old(self)),
            final(self).others_kept(*old(self), inst),
            !old(self).has(inst) ==> *final(self) == *old(self),
            old(self).has(inst) ==> {
                &&& final(self).gone(inst)
                &&& forall|i: InstanceId|
                    i.ty == inst.ty && i.id == inst.id ==> !#[trigger] final(self).has(i)
                &&& final(self).only_type(*old(self), inst.ty)
                &&& final(self).layouts_without(*old(self), inst)
            },
    {
        let ghost before = *self;
        if self.contains(inst) {
            let t = inst.ty.0 as usize;
            self.types[t].release(inst.id, inst.generation);
            proof {
                self.lemma_one_type(before, inst.ty, inst);
                assert forall|i: InstanceId| before.gone(i) implies #[trigger] self.gone(i) by {
                    if i.ty == inst.ty {
                        if i.id == inst.id {
                            assert(self.at(inst.ty).gone(inst.id, i.generation));
                        } else {
                            assert(self.at(inst.ty).has(i.id, i.generation) <==> before.at(
                                inst.ty,
                            ).has(i.id, i.generation));
                        }
                    } else {
                        assert(self.types@[i.ty.0 as int] == before.types@[i.ty.0 as int]);
                    }
                }
                assert forall|i: InstanceId|
                    i.ty == inst.ty && i.id == inst.id implies !#[trigger] self.has(i) by {
                    assert(!self.at(inst.ty).has(inst.id, i.generation));
                }
            }
        }
    }
}

impl Store {
    pub fn name_of(&self, ty: EntityTypeId) -> (r: &str)
        requires
            self.known(ty),
        ensures
            r@ == self.at(ty).name@,
    {
        self.types[ty.0 as usize].name.as_str()
    }

    pub fn fields(&self, ty: EntityTypeId) -> (r: &Vec<FieldDef>)
        requires
            self.known(ty),
        ensures
            *r == self.at(ty).fields,
    {
        &self.types[ty.0 as usize].fields
    }

    pub fn field_name(&self, ty: EntityTypeId, f: FieldId) -> (r: &str)
        requires
            self.field_known(ty, f),
        ensures
            r@ == self.at(ty).fields@[f.0 as int].name@,
    {
        self.types[ty.0 as usize].fields[f.0 as usize].name.as_str()
    }
}

/// Two field lists declare the same fields.
pub open spec fn same_fields(a: Seq<FieldDef>, b: Seq<FieldDef>) -> bool {
    &&& a.len() == b.len()
    &&& forall|i: int|
        0 <= i < a.len() ==> (#[trigger] a[i]).name@ == b[i].name@ && a[i].is_ref == b[i].is_ref
            && a[i].default@ == b[i].default@
}

impl TypeStore {
    /// Schema, instances and cells are those of `other`.
    pub open spec fn equiv(self, other: TypeStore) -> bool {
        &&& self.name@ == other.name@
        &&& same_fields(self.fields@, other.fields@)
        &&& self.singleton == other.singleton
        &&& self.policy == other.policy
        &&& self.cols@.len() == other.cols@.len()
        &&& forall|f: int|
            0 <= f < self.cols@.len() ==> (#[trigger] self.cols@[f])@ == other.cols@[f]@
        &&& self.row_id@ == other.row_id@
        &&& self.slots@ == other.slots@
        &&& self.id_slot@ == other.id_slot@
        &&& self.free_ids@ == other.free_ids@
        &&& self.free_rows@ == other.free_rows@
    }

    /// The two stores answer every question alike.
    pub proof fn lemma_equiv(self, other: TypeStore)
        requires
            self.equiv(other),
            other.wf(),
        ensures
            self.wf(),
            forall|i: u32, g: u64| #[trigger] self.has(i, g) <==> other.has(i, g),
            forall|i: u32, g: u64| #[trigger] self.gone(i, g) <==> other.gone(i, g),
            forall|i: u32, g: u64, f: int| #[trigger] self.read(i, g, f) == other.read(i, g, f),
            forall|ty: EntityTypeId, n: int|
                n <= self.rows() ==> #[trigger] alive_upto(self, ty, n) == alive_upto(other, ty, n),
    {
        assert forall|f: int| 0 <= f < self.cols@.len() implies (#[trigger] self.cols@[f])@.len()
            == self.rows() by {
            assert(other.cols@[f]@.len() == other.rows());
        }
        assert forall|id: int|
            0 <= id < self.id_slot@.len() && (#[trigger] self.id_slot@[id]).row
                is Some implies self.linked(id, self.id_slot@[id].row->0 as int) by {
            assert(other.linked(id, other.id_slot@[id].row->0 as int));
        }
        assert forall|i: u32, g: u64, f: int| #[trigger] self.read(i, g, f) == other.read(
            i,
            g,
            f,
        ) by {
            if 0 <= f < self.cols@.len() {
                assert(self.cols@[f]@ == other.cols@[f]@);
            }
        }
        assert forall|ty: EntityTypeId, n: int| n <= self.rows() implies #[trigger] alive_upto(
            self,
            ty,
            n,
        ) == alive_upto(other, ty, n) by {
            self.lemma_equiv_alive(other, ty, n);
        }
    }

    proof fn lemma_equiv_alive(self, other: TypeStore, ty: EntityTypeId, n: int)
        requires
            self.equiv(other),
            other.wf(),
            n <= self.rows(),
        ensures
            alive_upto(self, ty, n) == alive_upto(other, ty, n),
        decreases n,
    {
        if n > 0 {
            self.lemma_equiv_alive(other, ty, n - 1);
            assert(self.cols@[0]@ == other.cols@[0]@);
        }
    }
}

impl Clone for TypeStore {
    fn clone(&self) -> (r: TypeStore)
        ensures
            r.equiv(*self),
    {
        let mut fields: Vec<FieldDef> = Vec::new();
        let mut i: usize = 0;
        while i < self.fields.len()
            invariant
                i <= self.fields@.len(),
                fields@.len() == i,
                forall|j: int|
                    0 <= j < i ==> (#[trigger] fields@[j]).name@ == self.fields@[j].name@
                        && fields@[j].is_ref == self.fields@[j].is_ref && fields@[j].default@
                        == self.fields@[j].default@,
            decreases self.fields@.len() - i,
        {
            fields.push(self.fields[i].clone());
            i = i + 1;
        }
        let mut cols: Vec<Column> = Vec::new();
        let mut k: usize = 0;
        while k < self.cols.len()
            invariant
                k <= self.cols@.len(),
                cols@.len() == k,
                forall|j: int| 0 <= j < k ==> (#[trigger] cols@[j])@ == self.cols@[j]@,
            decreases self.cols@.len() - k,
        {
            cols.push(self.cols[k].clone());
            k = k + 1;
        }
        TypeStore {
            name: self.name.clone(),
            fields,
            singleton: self.singleton,
            policy: self.policy,
            cols,
            row_id: copied(&self.row_id),
            slots: self.slots.clone(),
            id_slot: copied(&self.id_slot),
            free_ids: copied(&self.free_ids),
            free_rows: copied(&self.free_rows),
        }
    }
}

impl Store {
    /// Types, instances and cells are those of `other`.
    pub open spec fn equiv(self, other: Store) -> bool {
        &&& self.types@.len() == other.types@.len()
        &&& forall|t: int|
            0 <= t < self.types@.len() ==> (#[trigger] self.types@[t]).equiv(other.types@[t])
    }
}

impl Clone for Store {
    fn clone(&self) -> (r: Store)
        ensures
            r.equiv(*self),
    {
        let mut types: Vec<TypeStore> = Vec::new();
        let mut i: usize = 0;
        while i < self.types.len()
            invariant
                i <= self.types@.len(),
                types@.len() == i,
                forall|j: int| 0 <= j < i ==> (#[trigger] types@[j]).equiv(self.types@[j]),
            decreases self.types@.len() - i,
        {
            types.push(self.types[i].clone());
            i = i + 1;
        }
        Store { types }
    }
}

/// A copy of the data answers every question as the original does.
pub proof fn law_copy_reads_alike(copy: Store, store: Store)
    requires
        copy.equiv(store),
        store.wf(),
    ensures
        copy.wf(),
        forall|i: InstanceId| #[trigger] copy.has(i) <==> store.has(i),
        forall|i: InstanceId| #[trigger] copy.gone(i) <==> store.gone(i),
        forall|i: InstanceId, f: FieldId| #[trigger] copy.value(i, f) == store.value(i, f),
        forall|ty: EntityTypeId| #[trigger] copy.instances(ty) == store.instances(ty),
{
    assert forall|t: int| 0 <= t < copy.types@.len() implies (#[trigger] copy.types@[t]).wf() by {
        copy.types@[t].lemma_equiv(store.types@[t]);
    }
    assert forall|i: InstanceId| #[trigger] copy.has(i) <==> store.has(i) by {
        if store.known(i.ty) {
            copy.at(i.ty).lemma_equiv(store.at(i.ty));
        }
    }
    assert forall|i: InstanceId| #[trigger] copy.gone(i) <==> store.gone(i) by {
        if store.known(i.ty) {
            copy.at(i.ty).lemma_equiv(store.at(i.ty));
        }
    }
    assert forall|i: InstanceId, f: FieldId| #[trigger] copy.value(i, f) == store.value(i, f) by {
        if store.known(i.ty) {
            copy.at(i.ty).lemma_equiv(store.at(i.ty));
        }
    }
    assert forall|ty: EntityTypeId| #[trigger] copy.instances(ty) == store.instances(ty) by {
        if store.known(ty) {
            copy.at(ty).lemma_equiv(store.at(ty));
        }
    }
}

/// The alive instances of a type are listed, each once and no other.
pub proof fn law_instances_are_the_alive_ones(store: Store, ty: EntityTypeId)
    requires
        store.wf(),
    ensures
        forall|i: InstanceId| #[trigger]
            store.instances(ty).contains(i) <==> i.ty == ty && store.is_alive(i),
        store.instances(ty).no_duplicates(),
{
    let t = store.at(ty);
    if store.known(ty) {
        lemma_alive_upto(store, ty, t.rows() as int);
    }
    assert forall|i: InstanceId| #[trigger]
        store.instances(ty).contains(i) <==> i.ty == ty && store.is_alive(i) by {
        if i.ty == ty && store.is_alive(i) {
            let r = t.id_slot@[i.id as int].row->0 as int;
            assert(t.linked(i.id as int, r));
        }
    }
}

proof fn lemma_alive_upto(store: Store, ty: EntityTypeId, n: int)
    requires
        store.wf(),
        store.known(ty),
        0 <= n <= store.at(ty).rows(),
    ensures
        forall|k: int|
            0 <= k < alive_upto(store.at(ty), ty, n).len() ==> {
                let i = #[trigger] alive_upto(store.at(ty), ty, n)[k];
                &&& i.ty == ty
                &&& store.is_alive(i)
                &&& store.at(ty).row_of(i.id, i.generation) is Some
                &&& 0 <= store.at(ty).row_of(i.id, i.generation)->0 < n
            },
        forall|i: InstanceId|
            i.ty == ty && store.is_alive(i) && store.at(ty).row_of(i.id, i.generation)->0 < n
                ==> #[trigger] alive_upto(store.at(ty), ty, n).contains(i),
        alive_upto(store.at(ty), ty, n).no_duplicates(),
    decreases n,
{
    let t = store.at(ty);
    if n > 0 {
        lemma_alive_upto(store, ty, n - 1);
        let before = alive_upto(t, ty, n - 1);
        let after = alive_upto(t, ty, n);
        assert(t.row_id.len() == t.rows());
        let e = InstanceId { ty, id: t.row_id@[n - 1], generation: t.slots@[n - 1].generation };
        let hit = t.slots@[n - 1].live && t.cols@[FIELD_ALIVE as int]@[n - 1] == Val::Bool(true);
        if hit {
            assert(t.id_slot@[e.id as int].row == Some((n - 1) as usize));
            assert(t.linked(e.id as int, n - 1));
            assert(t.row_of(e.id, e.generation) == Some(n - 1));
            assert(store.value(e, FieldId(FIELD_ALIVE)) == Val::Bool(true));
        }
        assert forall|i: InstanceId|
            i.ty == ty && store.is_alive(i) && t.row_of(i.id, i.generation)->0
                < n implies #[trigger] after.contains(i) by {
            let r = t.row_of(i.id, i.generation)->0;
            assert(t.linked(i.id as int, r));
            if r == n - 1 {
                assert(i == e);
                assert(after[before.len() as int] == e);
            } else {
                assert(before.contains(i));
                let k = choose|k: int| 0 <= k < before.len() && before[k] == i;
                assert(after[k] == i);
            }
        }
    }
}

impl SnapshotRead for Store {
    open spec fn ready(&self) -> bool {
        self.wf()
    }

    open spec fn cell(&self, inst: InstanceId, field: FieldId) -> Val {
        self.value(inst, field)
    }

    fn read(&self, inst: InstanceId, field: FieldId) -> (r: Value) {
        Store::read(self, inst, field)
    }
}

impl KernelColumnSource for Store {
    fn read_own_column(&self, lanes: &Vec<InstanceId>, field: FieldId) -> (r: KernelColumn) {
        let mut out: Vec<Value> = Vec::new();
        let mut i: usize = 0;
        while i < lanes.len()
            invariant
                self.wf(),
                i <= lanes@.len(),
                out@.len() == i,
                forall|j: int| 0 <= j < i ==> (#[trigger] out@[j])@ == self.value(lanes@[j], field),
            decreases lanes@.len() - i,
        {
            out.push(Store::read(self, lanes[i], field));
            i = i + 1;
        }
        let r = Column::from_values(out);
        assert(r@ =~= Seq::new(lanes@.len(), |i: int| self.cell(lanes@[i], field)));
        r
    }
}

/// A stable row keeps its number for life: births and deaths of others leave an id at its row.
pub proof fn law_stable_rows_stay(t: TypeStore, id: u32, j: u32)
    requires
        t.wf(),
        t.policy == RowPolicy::Stable,
        j < t.id_slot@.len(),
    ensures
        j != t.next_id() ==> t.layout().with_new(t.policy).id_slot[j as int] == t.id_slot@[j as int],
        j != id && id < t.id_slot@.len() ==> t.layout().without(t.policy, id).id_slot[j as int]
            == t.id_slot@[j as int],
{
}

/// Death leaves a hole under stable rows, and the hole goes to the next instance.
pub proof fn law_holes_are_filled(t: TypeStore, id: u32, generation: u64)
    requires
        t.wf(),
        t.policy == RowPolicy::Stable,
        t.has(id, generation),
    ensures
        t.layout().without(t.policy, id).row_id == t.row_id@,
        t.layout().without(t.policy, id).next_row(t.policy) == t.row_of(id, generation)->0,
{
}

/// Compact rows have no holes: every row is held by an instance. Where one dies, the last row
/// takes its place, and every other id stays at its row.
pub proof fn law_compact_rows_have_no_holes(t: TypeStore, id: u32, generation: u64, j: u32)
    requires
        t.wf(),
        t.policy == RowPolicy::Compact,
        t.has(id, generation),
        j < t.id_slot@.len(),
        j != id,
    ensures
        forall|r: int| 0 <= r < t.rows() ==> (#[trigger] t.slots@[r]).live,
        t.layout().without(t.policy, id).row_id.len() == t.rows() - 1,
        t.layout().without(t.policy, id).id_slot[j as int].row == (if t.id_slot@[j as int].row
            == Some((t.rows() - 1) as usize) {
            t.id_slot@[id as int].row
        } else {
            t.id_slot@[j as int].row
        }),
{
    let r = t.id_slot@[id as int].row->0 as int;
    assert(t.linked(id as int, r));
    assert(t.row_id.len() == t.rows());
    let last = t.rows() - 1;
    assert(t.slots@[last].live);
    if t.id_slot@[j as int].row is Some {
        assert(t.linked(j as int, t.id_slot@[j as int].row->0 as int));
    }
}

/// The instances that `alive` holds of among the first `n` rows.
pub open spec fn in_rows(
    l: Layout,
    ty: EntityTypeId,
    alive: spec_fn(InstanceId) -> bool,
    n: int,
) -> Seq<InstanceId>
    decreases n,
{
    if n <= 0 {
        Seq::empty()
    } else {
        let i = InstanceId { ty, id: l.row_id[n - 1], generation: l.slots[n - 1].generation };
        if l.slots[n - 1].live && alive(i) {
            in_rows(l, ty, alive, n - 1).push(i)
        } else {
            in_rows(l, ty, alive, n - 1)
        }
    }
}

/// The alive instances of a type are listed in the order of their rows.
pub proof fn law_instances_follow_the_rows(store: Store, ty: EntityTypeId)
    requires
        store.wf(),
        store.known(ty),
    ensures
        store.instances(ty) == in_rows(
            store.at(ty).layout(),
            ty,
            |i: InstanceId| store.is_alive(i),
            store.at(ty).rows() as int,
        ),
{
    lemma_in_rows(store, ty, store.at(ty).rows() as int);
}

proof fn lemma_in_rows(store: Store, ty: EntityTypeId, n: int)
    requires
        store.wf(),
        store.known(ty),
        0 <= n <= store.at(ty).rows(),
    ensures
        alive_upto(store.at(ty), ty, n) == in_rows(
            store.at(ty).layout(),
            ty,
            |i: InstanceId| store.is_alive(i),
            n,
        ),
    decreases n,
{
    let t = store.at(ty);
    if n > 0 {
        lemma_in_rows(store, ty, n - 1);
        if t.slots@[n - 1].live {
            assert(t.row_id.len() == t.rows());
            let e = InstanceId { ty, id: t.row_id@[n - 1], generation: t.slots@[n - 1].generation };
            assert(t.id_slot@[e.id as int].row == Some((n - 1) as usize));
            assert(t.linked(e.id as int, n - 1));
            assert(store.value(e, FieldId(FIELD_ALIVE)) == t.cols@[FIELD_ALIVE as int]@[n - 1]);
        }
    }
}

/// An instance that is born into a new row comes last in the list of its type.
pub proof fn law_new_rows_come_last(after: Store, before: Store, i: InstanceId)
    requires
        before.wf(),
        after.wf(),
        before.known(i.ty),
        after.others_kept(before, i),
        after.layouts_with(before, i.ty),
        !before.at(i.ty).layout().fills_hole(before.at(i.ty).policy),
        i.id == before.at(i.ty).next_id(),
        i.generation == before.at(i.ty).next_generation(),
        after.is_alive(i),
    ensures
        after.instances(i.ty) == before.instances(i.ty).push(i),
{
    let n = before.at(i.ty).rows() as int;
    law_instances_follow_the_rows(after, i.ty);
    law_instances_follow_the_rows(before, i.ty);
    assert(after.at(i.ty).layout() == before.at(i.ty).layout().with_new(before.at(i.ty).policy));
    lemma_rows_alike(after, before, i, n);
}

proof fn lemma_rows_alike(after: Store, before: Store, i: InstanceId, n: int)
    requires
        before.wf(),
        after.wf(),
        before.known(i.ty),
        after.others_kept(before, i),
        after.layouts_with(before, i.ty),
        !before.at(i.ty).layout().fills_hole(before.at(i.ty).policy),
        i.id == before.at(i.ty).next_id(),
        0 <= n <= before.at(i.ty).rows(),
    ensures
        in_rows(after.at(i.ty).layout(), i.ty, |x: InstanceId| after.is_alive(x), n) == in_rows(
            before.at(i.ty).layout(),
            i.ty,
            |x: InstanceId| before.is_alive(x),
            n,
        ),
    decreases n,
{
    let a = after.at(i.ty).layout();
    let t = before.at(i.ty);
    assert(a == t.layout().with_new(t.policy));
    if n > 0 {
        lemma_rows_alike(after, before, i, n - 1);
        let e = InstanceId {
            ty: i.ty,
            id: t.row_id@[n - 1],
            generation: t.slots@[n - 1].generation,
        };
        if t.slots@[n - 1].live {
            assert(t.id_slot@[e.id as int].row is Some);
            assert(e.id != i.id);
            assert(after.value(e, FieldId(FIELD_ALIVE)) == before.value(e, FieldId(FIELD_ALIVE)));
        }
    }
}

}
