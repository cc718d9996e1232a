//! Calculations: what runs when a predicate fires.
//!
//! A calculation gets the delivery of its predicate as copied values, reads what the last
//! frame committed, and writes fields of its own instance only.
use crate::entity::EntityTypeId;
use crate::entity::FieldId;
use crate::entity::InstanceId;
use crate::entity::FIELD_ALIVE;
use crate::kernel::has_field;
use crate::kernel::reads_of;
use crate::runtime::store::Store;
use crate::value::vals_of;
use crate::value::Val;
use crate::value::Value;
use vstd::prelude::*;

verus! {

#[derive(Clone, Copy, Debug, PartialEq, Eq, Structural, Hash)]
pub struct CalcId(pub u32);

/// What a predicate delivers. The form is fixed by its delivery.
pub enum Input {
    /// The projection of one hit.
    Each(Vec<Value>),
    /// The projections of all hits of a frame. Their order is not defined.
    Batch(Vec<Vec<Value>>),
    /// An aggregate.
    Fold(Value),
}

/// What an `Input` holds.
pub ghost enum InputModel {
    Each(Seq<Val>),
    Batch(Seq<Seq<Val>>),
    Fold(Val),
}

/// The views of rows of values.
pub open spec fn rows_of(rows: Seq<Vec<Value>>) -> Seq<Seq<Val>> {
    Seq::new(rows.len(), |i: int| vals_of(rows[i]@))
}

impl View for Input {
    type V = InputModel;

    open spec fn view(&self) -> InputModel {
        match *self {
            Input::Each(v) => InputModel::Each(vals_of(v@)),
            Input::Batch(rows) => InputModel::Batch(rows_of(rows@)),
            Input::Fold(v) => InputModel::Fold(v@),
        }
    }
}

impl Input {
    /// The projection of a hit.
    pub fn args(&self) -> (r: &Vec<Value>)
        requires
            self is Each,
        ensures
            *self == Input::Each(*r),
    {
        match self {
            Input::Each(v) => v,
            _ => vstd::pervasive::unreached(),
        }
    }

    /// One item of the projection of a hit.
    pub fn arg(&self, i: usize) -> (r: &Value)
        requires
            self is Each,
            i < self->Each_0@.len(),
        ensures
            *r == self->Each_0@[i as int],
    {
        &self.args()[i]
    }

    /// The rows of a batch.
    pub fn rows(&self) -> (r: &Vec<Vec<Value>>)
        requires
            self is Batch,
        ensures
            *self == Input::Batch(*r),
    {
        match self {
            Input::Batch(v) => v,
            _ => vstd::pervasive::unreached(),
        }
    }

    /// The aggregate.
    pub fn agg(&self) -> (r: &Value)
        requires
            self is Fold,
        ensures
            *self == Input::Fold(*r),
    {
        match self {
            Input::Fold(v) => v,
            _ => vstd::pervasive::unreached(),
        }
    }
}

/// A request to create an instance at the end of the frame.
pub struct SpawnReq {
    pub ty: EntityTypeId,
    pub init: Vec<(FieldId, Value)>,
}

/// What a calculation did against its declarations.
#[derive(Clone, Copy, Debug, PartialEq, Eq, Structural)]
pub enum Violation {
    /// A field was read that the declared reads do not list.
    UndeclaredRead(FieldId),
    /// A kernel asked for an instance.
    KernelSpawn(EntityTypeId),
}

/// What a calculation sees while it runs: the committed data to read, and its own instance
/// to write.
pub struct Ctx<'rt> {
    snapshot: &'rt Store,
    self_id: InstanceId,
    reads: &'rt Option<Vec<FieldId>>,
    kernel: bool,
    writes: Vec<(FieldId, Value)>,
    spawns: Vec<SpawnReq>,
    violations: Vec<Violation>,
}

impl<'rt> Ctx<'rt> {
    #[verifier::type_invariant]
    spec fn inv(self) -> bool {
        self.snapshot.wf()
    }

    pub closed spec fn store(self) -> Store {
        *self.snapshot
    }

    pub closed spec fn id(self) -> InstanceId {
        self.self_id
    }

    pub closed spec fn declared_reads(self) -> Option<Seq<FieldId>> {
        reads_of(*self.reads)
    }

    pub closed spec fn is_kernel(self) -> bool {
        self.kernel
    }

    pub closed spec fn writes_made(self) -> Seq<(FieldId, Value)> {
        self.writes@
    }

    pub closed spec fn spawns_made(self) -> Seq<SpawnReq> {
        self.spawns@
    }

    pub closed spec fn violations_made(self) -> Seq<Violation> {
        self.violations@
    }

    /// What is read and what may be written is as in `other`.
    pub open spec fn same_frame(self, other: Ctx<'rt>) -> bool {
        &&& self.store() == other.store()
        &&& self.id() == other.id()
        &&& self.declared_reads() == other.declared_reads()
        &&& self.is_kernel() == other.is_kernel()
    }

    pub(crate) fn new(
        snapshot: &'rt Store,
        self_id: InstanceId,
        reads: &'rt Option<Vec<FieldId>>,
        kernel: bool,
    ) -> (r: Ctx<'rt>)
        requires
            snapshot.wf(),
        ensures
            r.store() == *snapshot,
            r.id() == self_id,
            r.declared_reads() == reads_of(*reads),
            r.is_kernel() == kernel,
            r.writes_made().len() == 0,
            r.spawns_made().len() == 0,
            r.violations_made().len() == 0,
    {
        Ctx {
            snapshot,
            self_id,
            reads,
            kernel,
            writes: Vec::new(),
            spawns: Vec::new(),
            violations: Vec::new(),
        }
    }

    pub fn self_id(&self) -> (r: InstanceId)
        ensures
            r == self.id(),
    {
        self.self_id
    }

    /// Reads a field of the own instance. A read that the declared reads do not list is noted.
    pub fn read_own(&mut self, field: FieldId) -> (r: Value)
        ensures
            r@ == old(self).store().value(old(self).id(), field),
            final(self).same_frame(*old(self)),
            final(self).writes_made() == old(self).writes_made(),
            final(self).spawns_made() == old(self).spawns_made(),
            final(self).violations_made() == (match old(self).declared_reads() {
                Some(fs) => if fs.contains(field) {
                    old(self).violations_made()
                } else {
                    old(self).violations_made().push(Violation::UndeclaredRead(field))
                },
                None => old(self).violations_made(),
            }),
    {
        proof {
            use_type_invariant(&*self);
        }
        if let Some(fs) = self.reads {
            if !has_field(fs, field) {
                let mut v: Vec<Violation> = Vec::new();
                core::mem::swap(&mut v, &mut self.violations);
                v.push(Violation::UndeclaredRead(field));
                self.violations = v;
            }
        }
        self.snapshot.read(self.self_id, field)
    }

    /// Reads a field of any instance. Reading is no dependency: to be woken by a change,
    /// subscribe to it.
    pub fn read(&self, inst: InstanceId, field: FieldId) -> (r: Value)
        ensures
            r@ == self.store().value(inst, field),
    {
        proof {
            use_type_invariant(self);
        }
        self.snapshot.read(inst, field)
    }

    /// Writes a field of the own instance. Of several writes to one field the last counts.
    pub fn write(&mut self, field: FieldId, value: Value)
        requires
            field.0 != FIELD_ALIVE,
        ensures
            final(self).same_frame(*old(self)),
            final(self).writes_made() == old(self).writes_made().push((field, value)),
            final(self).spawns_made() == old(self).spawns_made(),
            final(self).violations_made() == old(self).violations_made(),
    {
        proof {
            use_type_invariant(&*self);
        }
        let mut w: Vec<(FieldId, Value)> = Vec::new();
        core::mem::swap(&mut w, &mut self.writes);
        w.push((field, value));
        self.writes = w;
    }

    /// Asks for an instance, created at the end of the frame. From a kernel it is noted.
    pub fn spawn(&mut self, ty: EntityTypeId, init: Vec<(FieldId, Value)>)
        ensures
            final(self).same_frame(*old(self)),
            final(self).writes_made() == old(self).writes_made(),
            final(self).spawns_made() == old(self).spawns_made().push(SpawnReq { ty, init }),
            final(self).violations_made() == (if old(self).is_kernel() {
                old(self).violations_made().push(Violation::KernelSpawn(ty))
            } else {
                old(self).violations_made()
            }),
    {
        proof {
            use_type_invariant(&*self);
        }
        if self.kernel {
            let mut v: Vec<Violation> = Vec::new();
            core::mem::swap(&mut v, &mut self.violations);
            v.push(Violation::KernelSpawn(ty));
            self.violations = v;
        }
        let mut s: Vec<SpawnReq> = Vec::new();
        core::mem::swap(&mut s, &mut self.spawns);
        s.push(SpawnReq { ty, init });
        self.spawns = s;
    }

    /// Ends the own instance: the only way in which an instance is destroyed from within.
    pub fn destroy_self(&mut self)
        ensures
            final(self).same_frame(*old(self)),
            final(self).writes_made() == old(self).writes_made().push(
                (FieldId(FIELD_ALIVE), Value::Bool(false)),
            ),
            final(self).spawns_made() == old(self).spawns_made(),
            final(self).violations_made() == old(self).violations_made(),
    {
        proof {
            use_type_invariant(&*self);
        }
        let mut w: Vec<(FieldId, Value)> = Vec::new();
        core::mem::swap(&mut w, &mut self.writes);
        w.push((FieldId(FIELD_ALIVE), Value::Bool(false)));
        self.writes = w;
    }

    /// Ends the run and hands over what it asked for.
    pub(crate) fn finish(self) -> (r: (Vec<(FieldId, Value)>, Vec<SpawnReq>, Vec<Violation>))
        ensures
            r.0@ == self.writes_made(),
            r.1@ == self.spawns_made(),
            r.2@ == self.violations_made(),
    {
        proof {
            use_type_invariant(&self);
        }
        (self.writes, self.spawns, self.violations)
    }
}

}
