//! What a calculation of the render side sees while it runs.
//!
//! It reads render fields of any instance and the clock, and writes render fields of its own
//! instance. There is no way to create or destroy an instance of the simulation; entities of
//! the render side alone may be asked for.
use crate::calculation::rows_of;
use crate::entity::InstanceId;
use crate::float64::F64;
use crate::render::clock::RenderClock;
use crate::render::local::LocalStore;
use crate::render::local::RenderLocalCommand;
use crate::render::local::RenderLocalId;
use crate::render::local::RenderLocalTypeId;
use crate::render::store::RFieldId;
use crate::render::store::RenderStore;
use crate::value::vals_of;
use crate::value::Val;
use crate::value::Value;
use vstd::prelude::*;

verus! {

/// What a reaction gets.
pub enum RenderInput {
    /// The projection of one write.
    Each(Vec<Value>),
    /// The projections of all hits of a simulation frame.
    Batch(Vec<Vec<Value>>),
}

/// What a `RenderInput` holds.
pub ghost enum RenderInputModel {
    Each(Seq<Val>),
    Batch(Seq<Seq<Val>>),
}

impl View for RenderInput {
    type V = RenderInputModel;

    open spec fn view(&self) -> RenderInputModel {
        match *self {
            RenderInput::Each(v) => RenderInputModel::Each(vals_of(v@)),
            RenderInput::Batch(rows) => RenderInputModel::Batch(rows_of(rows@)),
        }
    }
}

impl RenderInput {
    /// The projection of a hit.
    pub fn args(&self) -> (r: &Vec<Value>)
        requires
            self is Each,
        ensures
            *self == RenderInput::Each(*r),
    {
        match self {
            RenderInput::Each(v) => v,
            _ => vstd::pervasive::unreached(),
        }
    }

    /// One item of the projection of a hit.
    pub fn arg(&self, i: usize) -> (r: &Value)
        requires
            self is Each,
            i < self->Each_0@.len(),
        ensures
            *r == self->Each_0@[i as int],
    {
        &self.args()[i]
    }

    /// The rows of a batch.
    pub fn rows(&self) -> (r: &Vec<Vec<Value>>)
        requires
            self is Batch,
        ensures
            *self == RenderInput::Batch(*r),
    {
        match self {
            RenderInput::Batch(v) => v,
            _ => vstd::pervasive::unreached(),
        }
    }
}

/// The context of a reaction or a continuous calculation.
pub struct RenderCtx<'a> {
    store: &'a RenderStore,
    self_id: InstanceId,
    clock: RenderClock,
    writes: Vec<(RFieldId, Value)>,
    local_commands: Vec<RenderLocalCommand>,
}

impl<'a> RenderCtx<'a> {
    #[verifier::type_invariant]
    spec fn inv(self) -> bool {
        self.store.wf()
    }

    pub closed spec fn data(self) -> RenderStore {
        *self.store
    }

    pub closed spec fn id(self) -> InstanceId {
        self.self_id
    }

    pub closed spec fn time(self) -> RenderClock {
        self.clock
    }

    pub closed spec fn writes_made(self) -> Seq<(RFieldId, Value)> {
        self.writes@
    }

    pub closed spec fn commands_made(self) -> Seq<RenderLocalCommand> {
        self.local_commands@
    }

    /// What is read is as in `other`.
    pub open spec fn same_frame(self, other: RenderCtx<'a>) -> bool {
        &&& self.data() == other.data()
        &&& self.id() == other.id()
        &&& self.time() == other.time()
    }

    /// A context in which nothing was asked for yet.
    pub open spec fn fresh(self, store: RenderStore, id: InstanceId, clock: RenderClock) -> bool {
        &&& self.data() == store
        &&& self.id() == id
        &&& self.time() == clock
        &&& self.writes_made().len() == 0
        &&& self.commands_made().len() == 0
    }

    pub(crate) fn new(store: &'a RenderStore, self_id: InstanceId, clock: RenderClock) -> (r:
        RenderCtx<'a>)
        requires
            store.wf(),
        ensures
            r.fresh(*store, self_id, clock),
    {
        RenderCtx { store, self_id, clock, writes: Vec::new(), local_commands: Vec::new() }
    }

    pub fn self_id(&self) -> (r: InstanceId)
        ensures
            r == self.id(),
    {
        self.self_id
    }

    /// Seconds since the last render frame.
    pub fn dt(&self) -> (r: F64)
        ensures
            r == self.time().dt,
    {
        self.clock.dt
    }

    /// The place between two simulation frames, from zero to one.
    pub fn alpha(&self) -> (r: F64)
        ensures
            r == self.time().alpha,
    {
        self.clock.alpha
    }

    pub fn render_frame(&self) -> (r: u64)
        ensures
            r == self.time().frame,
    {
        self.clock.frame
    }

    /// Reads a render field of the own instance.
    pub fn read(&self, f: RFieldId) -> (r: Value)
        ensures
            r@ == self.data().value(self.id(), f),
    {
        proof {
            use_type_invariant(self);
        }
        self.store.read_render(self.self_id, f)
    }

    /// Reads a render field of any instance. A continuous calculation sees what was there
    /// before the continuous writes of its frame, whatever the order of the instances.
    pub fn read_of(&self, inst: InstanceId, f: RFieldId) -> (r: Value)
        ensures
            r@ == self.data().value(inst, f),
    {
        proof {
            use_type_invariant(self);
        }
        self.store.read_render(inst, f)
    }

    /// Writes a render field of the own instance. Of several writes to one field the last
    /// counts.
    pub fn write(&mut self, f: RFieldId, v: Value)
        ensures
            final(self).same_frame(*old(self)),
            final(self).writes_made() == old(self).writes_made().push((f, v)),
            final(self).commands_made() == old(self).commands_made(),
    {
        proof {
            use_type_invariant(&*self);
        }
        let mut w: Vec<(RFieldId, Value)> = Vec::new();
        core::mem::swap(&mut w, &mut self.writes);
        w.push((f, v));
        self.writes = w;
    }

    /// Asks for a local entity, made when the calculations of the frame have run.
    pub fn spawn_local(&mut self, ty: RenderLocalTypeId, init: Vec<(RFieldId, Value)>)
        ensures
            final(self).same_frame(*old(self)),
            final(self).writes_made() == old(self).writes_made(),
            final(self).commands_made() == old(self).commands_made().push(
                RenderLocalCommand::Spawn { ty, init },
            ),
    {
        proof {
            use_type_invariant(&*self);
        }
        let mut c: Vec<RenderLocalCommand> = Vec::new();
        core::mem::swap(&mut c, &mut self.local_commands);
        c.push(RenderLocalCommand::Spawn { ty, init });
        self.local_commands = c;
    }

    /// Ends the run and hands over what it asked for.
    pub(crate) fn finish(self) -> (r: (Vec<(RFieldId, Value)>, Vec<RenderLocalCommand>))
        ensures
            r.0@ == self.writes_made(),
            r.1@ == self.commands_made(),
    {
        proof {
            use_type_invariant(&self);
        }
        (self.writes, self.local_commands)
    }
}

/// The context of a local entity.
pub struct RenderLocalCtx<'a> {
    store: &'a LocalStore,
    self_id: RenderLocalId,
    clock: RenderClock,
    writes: Vec<(RFieldId, Value)>,
    local_commands: Vec<RenderLocalCommand>,
}

impl<'a> RenderLocalCtx<'a> {
    #[verifier::type_invariant]
    spec fn inv(self) -> bool {
        self.store.wf()
    }

    pub closed spec fn data(self) -> LocalStore {
        *self.store
    }

    pub closed spec fn id(self) -> RenderLocalId {
        self.self_id
    }

    pub closed spec fn time(self) -> RenderClock {
        self.clock
    }

    pub closed spec fn writes_made(self) -> Seq<(RFieldId, Value)> {
        self.writes@
    }

    pub closed spec fn commands_made(self) -> Seq<RenderLocalCommand> {
        self.local_commands@
    }

    /// What is read is as in `other`.
    pub open spec fn same_frame(self, other: RenderLocalCtx<'a>) -> bool {
        &&& self.data() == other.data()
        &&& self.id() == other.id()
        &&& self.time() == other.time()
    }

    /// A context in which nothing was asked for yet.
    pub open spec fn fresh(self, store: LocalStore, id: RenderLocalId, clock: RenderClock) -> bool {
        &&& self.data() == store
        &&& self.id() == id
        &&& self.time() == clock
        &&& self.writes_made().len() == 0
        &&& self.commands_made().len() == 0
    }

    pub(crate) fn new(store: &'a LocalStore, self_id: RenderLocalId, clock: RenderClock) -> (r:
        RenderLocalCtx<'a>)
        requires
            store.wf(),
        ensures
            r.fresh(*store, self_id, clock),
    {
        RenderLocalCtx { store, self_id, clock, writes: Vec::new(), local_commands: Vec::new() }
    }

    pub fn self_id(&self) -> (r: RenderLocalId)
        ensures
            r == self.id(),
    {
        self.self_id
    }

    /// Seconds since the last render frame.
    pub fn dt(&self) -> (r: F64)
        ensures
            r == self.time().dt,
    {
        self.clock.dt
    }

    /// The place between two simulation frames, from zero to one.
    pub fn alpha(&self) -> (r: F64)
        ensures
            r == self.time().alpha,
    {
        self.clock.alpha
    }

    pub fn render_frame(&self) -> (r: u64)
        ensures
            r == self.time().frame,
    {
        self.clock.frame
    }

    /// Reads a field of the own entity.
    pub fn read(&self, f: RFieldId) -> (r: Value)
        ensures
            r@ == self.data().value(self.id(), f),
    {
        proof {
            use_type_invariant(self);
        }
        self.store.read(self.self_id, f)
    }

    /// Reads a field of any local entity.
    pub fn read_of(&self, id: RenderLocalId, f: RFieldId) -> (r: Value)
        ensures
            r@ == self.data().value(id, f),
    {
        proof {
            use_type_invariant(self);
        }
        self.store.read(id, f)
    }

    /// Writes a field of the own entity.
    pub fn write(&mut self, f: RFieldId, v: Value)
        ensures
            final(self).same_frame(*old(self)),
            final(self).writes_made() == old(self).writes_made().push((f, v)),
            final(self).commands_made() == old(self).commands_made(),
    {
        proof {
            use_type_invariant(&*self);
        }
        let mut w: Vec<(RFieldId, Value)> = Vec::new();
        core::mem::swap(&mut w, &mut self.writes);
        w.push((f, v));
        self.writes = w;
    }

    /// Asks for another local entity.
    pub fn spawn_local(&mut self, ty: RenderLocalTypeId, init: Vec<(RFieldId, Value)>)
        ensures
            final(self).same_frame(*old(self)),
            final(self).writes_made() == old(self).writes_made(),
            final(self).commands_made() == old(self).commands_made().push(
                RenderLocalCommand::Spawn { ty, init },
            ),
    {
        proof {
            use_type_invariant(&*self);
        }
        let mut c: Vec<RenderLocalCommand> = Vec::new();
        core::mem::swap(&mut c, &mut self.local_commands);
        c.push(RenderLocalCommand::Spawn { ty, init });
        self.local_commands = c;
    }

    /// Ends the own entity once the local calculations of the frame have run.
    pub fn destroy_self(&mut self)
        ensures
            final(self).same_frame(*old(self)),
            final(self).writes_made() == old(self).writes_made(),
            final(self).commands_made() == old(self).commands_made().push(
                RenderLocalCommand::Destroy(old(self).id()),
            ),
    {
        proof {
            use_type_invariant(&*self);
        }
        let mut c: Vec<RenderLocalCommand> = Vec::new();
        core::mem::swap(&mut c, &mut self.local_commands);
        c.push(RenderLocalCommand::Destroy(self.self_id));
        self.local_commands = c;
    }

    /// Ends the run and hands over what it asked for.
    pub(crate) fn finish(self) -> (r: (Vec<(RFieldId, Value)>, Vec<RenderLocalCommand>))
        ensures
            r.0@ == self.writes_made(),
            r.1@ == self.commands_made(),
    {
        proof {
            use_type_invariant(&self);
        }
        (self.writes, self.local_commands)
    }
}

}
