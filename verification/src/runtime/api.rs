//! Settings, inspection, and snapshots of a runtime.
use crate::calculation::CalcId;
use crate::column::copied;
use crate::entity::EntityTypeId;
use crate::entity::FieldId;
use crate::entity::InstanceId;
use crate::runtime::clock::Clock;
use crate::runtime::engine::clock_ok;
use crate::runtime::engine::schema_ok;
use crate::runtime::engine::Runtime;
use crate::runtime::lifecycle::copy_log;
use crate::runtime::lifecycle::log_of;
use crate::runtime::lifecycle::refs_ok;
use crate::runtime::lifecycle::WriteRec;
use crate::runtime::profile::Profile;
use crate::runtime::profile::Schedule;
use crate::runtime::refs::is_ref;
use crate::runtime::refs::Edge;
use crate::runtime::refs::RefTable;
use crate::runtime::route::folds_of;
use crate::runtime::route::folds_ok;
use crate::runtime::route::FoldTable;
use crate::runtime::routing::dirty_ok;
use crate::runtime::store::law_copy_reads_alike;
use crate::runtime::store::Store;
use crate::runtime::CalcInfo;
use crate::runtime::Detect;
use crate::runtime::Determinism;
use crate::value::vals_of;
use crate::value::Val;
use crate::value::Value;
use vstd::prelude::*;

verus! {

/// The frame that comes so many frames after another.
pub open spec fn frames_on(frame: u64, frames: u64) -> u64 {
    (frame + frames) as u64
}

/// No frames on is now, and one more is the frame after.
pub proof fn law_frames_on(frame: u64, frames: u64)
    requires
        frame + frames < u64::MAX,
    ensures
        frames_on(frame, 0) == frame,
        frames_on(frame, (frames + 1) as u64) == frames_on(frame, frames) + 1,
{
}

impl<F> Runtime<F> {
    pub fn set_detect(&mut self, d: Detect)
        ensures
            *final(self) == (Runtime { detect: d, ..*old(self) }),
    {
        self.detect = d;
    }

    pub fn set_determinism(&mut self, d: Determinism)
        ensures
            *final(self) == (Runtime { determinism: d, ..*old(self) }),
    {
        self.determinism = d;
    }

    pub fn profile(&self) -> (r: &Profile)
        ensures
            *r == self.profile,
    {
        &self.profile
    }

    /// The plan of the last frame.
    pub fn last_schedule(&self) -> (r: &Schedule)
        ensures
            *r == self.schedule,
    {
        &self.schedule
    }

    /// Keeps the routed writes of every frame from now on, for a second runtime.
    pub fn enable_render_feed(&mut self)
        ensures
            *final(self) == (Runtime { render_feed: true, ..*old(self) }),
    {
        self.render_feed = true;
    }

    /// The writes that the last frame routed.
    pub fn committed_writes(&self) -> (r: &Vec<WriteRec>)
        ensures
            *r == self.last_routed,
    {
        &self.last_routed
    }

    /// The field of the type with this name.
    pub fn try_field(&self, ty: EntityTypeId, name: &String) -> (r: Option<FieldId>)
        requires
            self.wf(),
            self.store.known(ty),
        ensures
            r is Some ==> {
                &&& self.store.field_known(ty, r->0)
                &&& self.store.at(ty).fields@[(r->0).0 as int].name@ == name@
                &&& forall|i: int|
                    0 <= i < (r->0).0 ==> (#[trigger] self.store.at(ty).fields@[i]).name@ != name@
            },
            r is None ==> forall|i: int|
                0 <= i < self.store.at(ty).fields@.len() ==> (
                #[trigger] self.store.at(ty).fields@[i]).name@ != name@,
    {
        self.store.try_field(ty, name)
    }

    /// The field of the type with this name, which must exist.
    pub fn field(&self, ty: EntityTypeId, name: &String) -> (r: FieldId)
        requires
            self.wf(),
            self.store.known(ty),
            exists|i: int|
                0 <= i < self.store.at(ty).fields@.len() && (
                #[trigger] self.store.at(ty).fields@[i]).name@ == name@,
        ensures
            self.store.field_known(ty, r),
            self.store.at(ty).fields@[r.0 as int].name@ == name@,
            forall|i: int|
                0 <= i < r.0 ==> (#[trigger] self.store.at(ty).fields@[i]).name@ != name@,
    {
        self.store.try_field(ty, name).unwrap()
    }

    /// The number of registered types, the clock included.
    pub fn type_count(&self) -> (r: usize)
        ensures
            r == self.store.types@.len(),
    {
        self.store.types.len()
    }

    /// The defaults of all fields of a type, `_alive` included.
    pub fn field_defaults(&self, ty: EntityTypeId) -> (r: Vec<Value>)
        requires
            self.store.known(ty),
        ensures
            vals_of(r@) == Seq::new(
                self.store.at(ty).fields@.len(),
                |i: int| self.store.at(ty).default_of(i),
            ),
    {
        let fields = self.store.fields(ty);
        let mut out: Vec<Value> = Vec::new();
        let mut i: usize = 0;
        while i < fields.len()
            invariant
                i <= fields@.len(),
                out@.len() == i,
                forall|j: int| 0 <= j < i ==> (#[trigger] out@[j])@ == fields@[j].default@,
            decreases fields@.len() - i,
        {
            out.push(fields[i].default.clone());
            i = i + 1;
        }
        assert(vals_of(out@) =~= Seq::new(
            self.store.at(ty).fields@.len(),
            |i: int| self.store.at(ty).default_of(i),
        ));
        out
    }

    /// The alive instances of a type.
    pub fn alive(&self, ty: EntityTypeId) -> (r: Vec<InstanceId>)
        requires
            self.wf(),
            self.store.known(ty),
        ensures
            r@ == self.store.instances(ty),
    {
        self.store.alive_instances(ty)
    }

    pub fn clock(&self) -> (r: &Clock)
        ensures
            *r == self.clock,
    {
        &self.clock
    }

    /// Sets an alarm: in that frame the clock writes the payload to its `alarm`.
    pub fn set_alarm(&mut self, at_frame: u64, payload: Value)
        requires
            old(self).wf(),
        ensures
            final(self).wf(),
            final(self).clock.same_cells(old(self).clock),
            final(self).clock.alarm_added(old(self).clock, at_frame, payload@),
            *final(self) == (Runtime { clock: final(self).clock, ..*old(self) }),
    {
        self.clock.set_alarm(at_frame, payload);
    }

    /// Sets an alarm so many frames from now.
    pub fn set_alarm_in(&mut self, frames: u64, payload: Value)
        requires
            old(self).wf(),
            old(self).frame + frames <= u64::MAX,
        ensures
            final(self).wf(),
            final(self).clock.same_cells(old(self).clock),
            final(self).clock.alarm_added(
                old(self).clock,
                (old(self).frame + frames) as u64,
                payload@,
            ),
            final(self).clock.alarm_added(
                old(self).clock,
                frames_on(old(self).frame, frames),
                payload@,
            ),
            *final(self) == (Runtime { clock: final(self).clock, ..*old(self) }),
    {
        self.set_alarm(self.frame + frames, payload);
    }

    pub fn frame(&self) -> (r: u64)
        ensures
            r == self.frame,
    {
        self.frame
    }

    /// The committed value of a cell.
    pub fn read(&self, inst: InstanceId, field: FieldId) -> (r: Value)
        requires
            self.wf(),
        ensures
            r@ == self.store.value(inst, field),
    {
        self.store.read(inst, field)
    }
}

/// Everything of a runtime that changes from frame to frame. Registrations, settings and
/// counters are no part of it.
pub struct Snapshot {
    pub store: Store,
    pub folds: FoldTable,
    pub fold_dirty: Vec<(CalcId, InstanceId)>,
    pub refs: RefTable,
    pub clock: Clock,
    pub schedule: Schedule,
    pub frame: u64,
    pub pending: Vec<WriteRec>,
    pub last_routed: Vec<WriteRec>,
}

impl Snapshot {
    /// The state is that of the runtime.
    pub open spec fn captures<F>(self, rt: Runtime<F>) -> bool {
        &&& self.store.equiv(rt.store)
        &&& self.folds.wf()
        &&& folds_of(self.folds@) == folds_of(rt.folds@)
        &&& self.fold_dirty@ == rt.fold_dirty@
        &&& self.refs.by_target@ == rt.refs.by_target@
        &&& self.clock.same_cells(rt.clock)
        &&& self.clock.same_alarms(rt.clock)
        &&& self.schedule@ == rt.schedule@
        &&& self.frame == rt.frame
        &&& log_of(self.pending@) == log_of(rt.pending@)
        &&& log_of(self.last_routed@) == log_of(rt.last_routed@)
    }

    /// The state can be restored under these registrations.
    pub open spec fn fits(
        self,
        infos: Seq<CalcInfo>,
        tys: Seq<EntityTypeId>,
        clock: Clock,
    ) -> bool {
        &&& self.clock.same_cells(clock)
        &&& self.store.wf()
        &&& refs_ok(self.store, self.refs)
        &&& schema_ok(self.store, infos, tys, self.clock)
        &&& self.folds.wf()
        &&& folds_ok(folds_of(self.folds@), infos)
        &&& dirty_ok(self.fold_dirty@, folds_of(self.folds@), infos)
    }

    /// The frame that the snapshot was taken in.
    pub fn frame(&self) -> (r: u64)
        ensures
            r == self.frame,
    {
        self.frame
    }
}

/// A copy of the data satisfies what the data satisfies.
proof fn lemma_equiv_ok(
    a: Store,
    b: Store,
    ra: RefTable,
    rb: RefTable,
    ca: Clock,
    cb: Clock,
    infos: Seq<CalcInfo>,
    tys: Seq<EntityTypeId>,
)
    requires
        a.equiv(b),
        b.wf(),
        refs_ok(b, rb),
        ra.by_target@ == rb.by_target@,
        ca.same_cells(cb),
        schema_ok(b, infos, tys, cb),
    ensures
        a.wf(),
        refs_ok(a, ra),
        schema_ok(a, infos, tys, ca),
{
    law_copy_reads_alike(a, b);
    assert forall|t: InstanceId| #[trigger] ra.holders_of(t) == rb.holders_of(t) by {}
    assert(ra.wf()) by {
        assert forall|t: InstanceId| (#[trigger] ra.holders_of(t)).no_duplicates() by {
            assert(rb.holders_of(t).no_duplicates());
        }
    }
    assert forall|e: Edge| #[trigger] ra.has(e) == rb.has(e) by {}
    assert forall|ty: EntityTypeId, f: FieldId| #[trigger] a.field_known(ty, f) <==> b.field_known(
        ty,
        f,
    ) by {
        if a.known(ty) {
            assert(a.types@[ty.0 as int].equiv(b.types@[ty.0 as int]));
        }
    }
    assert forall|ty: EntityTypeId, f: FieldId| #[trigger] is_ref(a, ty, f) <==> is_ref(b, ty, f) by {
        if a.known(ty) {
            assert(a.types@[ty.0 as int].equiv(b.types@[ty.0 as int]));
            if a.field_known(ty, f) {
                assert(b.field_known(ty, f));
                assert(a.at(ty).fields@[f.0 as int].is_ref == b.at(ty).fields@[f.0 as int].is_ref);
            }
        }
    }
    assert forall|e: Edge| #[trigger] ra.has(e) implies {
        &&& a.has(e.holder)
        &&& is_ref(a, e.holder.ty, e.field)
        &&& a.value(e.holder, e.field) == Val::Ref(e.target)
    } by {
        assert(rb.has(e));
        assert(is_ref(b, e.holder.ty, e.field));
    }
    assert forall|h: InstanceId, f: FieldId, t: InstanceId|
        #![trigger ra.has(Edge { target: t, holder: h, field: f })]
        a.is_alive(h) && is_ref(a, h.ty, f) && a.value(h, f) == Val::Ref(t) implies ra.has(
        Edge { target: t, holder: h, field: f },
    ) by {
        let e = Edge { target: t, holder: h, field: f };
        assert(b.is_alive(h));
        assert(is_ref(b, h.ty, f));
        assert(rb.has(e));
    }
    assert(crate::runtime::engine::writes_known(infos, a)) by {
        assert forall|c: int, w: int|
            #![trigger infos[c].declared_writes@[w]]
            0 <= c < infos.len() && 0 <= w < infos[c].declared_writes@.len() implies a.field_known(
            infos[c].ty,
            infos[c].declared_writes@[w],
        ) by {
            assert(b.field_known(infos[c].ty, infos[c].declared_writes@[w]));
        }
    }
    assert(clock_ok(ca, a)) by {
        assert(a.field_known(ca.ty, ca.f_frame));
        assert(a.field_known(ca.ty, ca.f_alarm));
        assert(!is_ref(a, ca.ty, ca.f_frame));
        assert(!is_ref(a, ca.ty, ca.f_alarm));
    }
}

/// A snapshot can be restored into the runtime it was taken of, and into any runtime with
/// its registrations.
pub proof fn law_snapshot_fits<F>(snap: Snapshot, rt: Runtime<F>)
    requires
        rt.wf(),
        snap.captures(rt),
    ensures
        snap.fits(rt.infos@, rt.tys@, rt.clock),
{
    lemma_equiv_ok(
        snap.store,
        rt.store,
        snap.refs,
        rt.refs,
        snap.clock,
        rt.clock,
        rt.infos@,
        rt.tys@,
    );
}

/// Taking a snapshot and restoring it brings every cell, reference, aggregate, alarm and
/// pending write back.
pub proof fn law_restore_undoes<F>(snap: Snapshot, taken: Runtime<F>, restored: Runtime<F>)
    requires
        taken.wf(),
        snap.captures(taken),
        snap.captures(restored),
        restored.wf(),
    ensures
        forall|i: InstanceId| #[trigger] restored.store.has(i) <==> taken.store.has(i),
        forall|i: InstanceId| #[trigger] restored.store.gone(i) <==> taken.store.gone(i),
        forall|i: InstanceId, f: FieldId| #[trigger]
            restored.store.value(i, f) == taken.store.value(i, f),
        forall|ty: EntityTypeId| #[trigger]
            restored.store.instances(ty) == taken.store.instances(ty),
        restored.store.same_layouts(taken.store),
        restored.refs.by_target@ == taken.refs.by_target@,
        folds_of(restored.folds@) == folds_of(taken.folds@),
        restored.fold_dirty@ == taken.fold_dirty@,
        restored.clock.same_alarms(taken.clock),
        restored.frame == taken.frame,
        log_of(restored.pending@) == log_of(taken.pending@),
{
    law_copy_reads_alike(snap.store, taken.store);
    law_copy_reads_alike(snap.store, restored.store);
    assert forall|i: InstanceId| #[trigger] restored.store.has(i) <==> taken.store.has(i) by {
        assert(snap.store.has(i) <==> taken.store.has(i));
    }
    assert forall|i: InstanceId| #[trigger] restored.store.gone(i) <==> taken.store.gone(i) by {
        assert(snap.store.gone(i) <==> taken.store.gone(i));
    }
    assert forall|i: InstanceId, f: FieldId| #[trigger] restored.store.value(i, f)
        == taken.store.value(i, f) by {
        assert(snap.store.value(i, f) == taken.store.value(i, f));
    }
    assert forall|ty: EntityTypeId| #[trigger] restored.store.instances(ty)
        == taken.store.instances(ty) by {
        assert(snap.store.instances(ty) == taken.store.instances(ty));
    }
    assert forall|frame: u64| #[trigger] restored.clock.due(frame) == taken.clock.due(frame) by {
        assert(snap.clock.due(frame) == taken.clock.due(frame));
        assert(snap.clock.due(frame) == restored.clock.due(frame));
    }
    assert forall|t: EntityTypeId| taken.store.known(t) implies (
    #[trigger] restored.store.at(t)).layout() == taken.store.at(t).layout() by {
        assert(snap.store.types@[t.0 as int].equiv(taken.store.types@[t.0 as int]));
        assert(snap.store.types@[t.0 as int].equiv(restored.store.types@[t.0 as int]));
    }
}

impl<F> Runtime<F> {
    /// Takes a snapshot.
    pub fn snapshot(&self) -> (r: Snapshot)
        requires
            self.wf(),
        ensures
            r.captures(*self),
            r.fits(self.infos@, self.tys@, self.clock),
    {
        let r = Snapshot {
            store: self.store.clone(),
            folds: self.folds.clone(),
            fold_dirty: copied(&self.fold_dirty),
            refs: self.refs.clone(),
            clock: self.clock.clone(),
            schedule: self.schedule.clone(),
            frame: self.frame,
            pending: copy_log(&self.pending),
            last_routed: copy_log(&self.last_routed),
        };
        proof {
            law_snapshot_fits(r, *self);
        }
        r
    }

    /// Goes back to a snapshot. Registrations, settings and counters stay.
    pub fn restore(&mut self, snap: &Snapshot)
        requires
            old(self).wf(),
            snap.fits(old(self).infos@, old(self).tys@, old(self).clock),
        ensures
            final(self).wf(),
            snap.captures(*final(self)),
            final(self).infos == old(self).infos,
            final(self).tys == old(self).tys,
            final(self).bodies == old(self).bodies,
            final(self).owners == old(self).owners,
            final(self).idx == old(self).idx,
            final(self).ecs_calcs == old(self).ecs_calcs,
            final(self).profile == old(self).profile,
            final(self).detect == old(self).detect,
            final(self).determinism == old(self).determinism,
            final(self).render_feed == old(self).render_feed,
    {
        let store = snap.store.clone();
        let refs = snap.refs.clone();
        let clock = snap.clock.clone();
        proof {
            lemma_equiv_ok(
                store,
                snap.store,
                refs,
                snap.refs,
                clock,
                snap.clock,
                self.infos@,
                self.tys@,
            );
            lemma_equiv_back(store, snap.store);
        }
        self.store = store;
        self.folds = snap.folds.clone();
        self.fold_dirty = copied(&snap.fold_dirty);
        self.refs = refs;
        self.clock = clock;
        self.schedule = snap.schedule.clone();
        self.frame = snap.frame;
        self.pending = copy_log(&snap.pending);
        self.last_routed = copy_log(&snap.last_routed);
    }
}

/// Being a copy goes both ways.
proof fn lemma_equiv_back(a: Store, b: Store)
    requires
        a.equiv(b),
    ensures
        b.equiv(a),
{
    assert forall|t: int| 0 <= t < b.types@.len() implies (#[trigger] b.types@[t]).equiv(
        a.types@[t],
    ) by {
        let x = a.types@[t];
        let y = b.types@[t];
        assert(x.equiv(y));
        assert forall|f: int| 0 <= f < y.cols@.len() implies (#[trigger] y.cols@[f])@
            == x.cols@[f]@ by {
            assert(x.cols@[f]@ == y.cols@[f]@);
        }
        assert forall|i: int| 0 <= i < y.fields@.len() implies (#[trigger] y.fields@[i]).name@
            == x.fields@[i].name@ && y.fields@[i].is_ref == x.fields@[i].is_ref
            && y.fields@[i].default@ == x.fields@[i].default@ by {
            assert(x.fields@[i].name@ == y.fields@[i].name@);
        }
    }
}

}
