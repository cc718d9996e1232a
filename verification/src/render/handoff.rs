//! The hand-over from the simulation to the render side.
//!
//! After each simulation frame a frame is published that holds what changed. The render side
//! takes all frames that were published since it last looked, in order: births, deaths and
//! events are never skipped.
use crate::calculation::Ctx;
use crate::calculation::Input;
use crate::entity::EntityTypeId;
use crate::entity::FieldId;
use crate::entity::InstanceId;
use crate::entity::FIELD_ALIVE;
use crate::runtime::engine::Runtime;
use crate::runtime::lifecycle::copy_log;
use crate::runtime::lifecycle::log_of;
use crate::runtime::lifecycle::WriteModel;
use crate::runtime::lifecycle::WriteRec;
use crate::value::Val;
use crate::value::Value;
use vstd::prelude::*;

verus! {

/// The change of a tracked field in one frame.
#[derive(Debug)]
pub struct TrackedDelta {
    pub inst: InstanceId,
    pub sim_field: FieldId,
    pub old: Value,
    pub new: Value,
}

/// What a `TrackedDelta` holds.
pub ghost struct DeltaModel {
    pub inst: InstanceId,
    pub sim_field: FieldId,
    pub old: Val,
    pub new: Val,
}

impl View for TrackedDelta {
    type V = DeltaModel;

    open spec fn view(&self) -> DeltaModel {
        DeltaModel {
            inst: self.inst,
            sim_field: self.sim_field,
            old: self.old@,
            new: self.new@,
        }
    }
}

impl Clone for TrackedDelta {
    fn clone(&self) -> (r: TrackedDelta)
        ensures
            r@ == self@,
    {
        TrackedDelta {
            inst: self.inst,
            sim_field: self.sim_field,
            old: self.old.clone(),
            new: self.new.clone(),
        }
    }
}

pub open spec fn deltas_of(ds: Seq<TrackedDelta>) -> Seq<DeltaModel> {
    Seq::new(ds.len(), |i: int| ds[i]@)
}

/// A write as a change.
pub open spec fn delta_of(w: WriteModel) -> DeltaModel {
    DeltaModel { inst: w.inst, sim_field: w.field, old: w.old, new: w.new }
}

pub open spec fn of_cell(d: DeltaModel, inst: InstanceId, f: FieldId) -> bool {
    d.inst == inst && d.sim_field == f
}

/// The first change of the cell, or the length.
pub open spec fn delta_at(ds: Seq<DeltaModel>, inst: InstanceId, f: FieldId) -> int
    decreases ds.len(),
{
    if ds.len() == 0 || of_cell(ds[0], inst, f) {
        0
    } else {
        1 + delta_at(ds.drop_first(), inst, f)
    }
}

proof fn lemma_delta_at(ds: Seq<DeltaModel>, inst: InstanceId, f: FieldId, n: int)
    requires
        0 <= n <= ds.len(),
        forall|i: int| 0 <= i < n ==> !of_cell(#[trigger] ds[i], inst, f),
        n < ds.len() ==> of_cell(ds[n], inst, f),
    ensures
        delta_at(ds, inst, f) == n,
    decreases n,
{
    if n > 0 {
        let t = ds.drop_first();
        assert forall|i: int| 0 <= i < n - 1 implies !of_cell(#[trigger] t[i], inst, f) by {
            assert(t[i] == ds[i + 1]);
        }
        if n < ds.len() {
            assert(t[n - 1] == ds[n]);
        }
        lemma_delta_at(t, inst, f, n - 1);
    }
}

pub proof fn lemma_delta_found(ds: Seq<DeltaModel>, inst: InstanceId, f: FieldId)
    ensures
        0 <= delta_at(ds, inst, f) <= ds.len(),
        forall|i: int| 0 <= i < delta_at(ds, inst, f) ==> !of_cell(#[trigger] ds[i], inst, f),
        delta_at(ds, inst, f) < ds.len() ==> of_cell(ds[delta_at(ds, inst, f)], inst, f),
    decreases ds.len(),
{
    if ds.len() > 0 && !of_cell(ds[0], inst, f) {
        let t = ds.drop_first();
        lemma_delta_found(t, inst, f);
        assert forall|i: int| 0 <= i < delta_at(ds, inst, f) implies !of_cell(
            #[trigger] ds[i],
            inst,
            f,
        ) by {
            if i > 0 {
                assert(t[i - 1] == ds[i]);
            }
        }
    }
}

/// One change more: a cell keeps the value it had before its first change and gets the value
/// after its last.
pub open spec fn absorbed(ds: Seq<DeltaModel>, d: DeltaModel) -> Seq<DeltaModel> {
    let i = delta_at(ds, d.inst, d.sim_field);
    if i < ds.len() {
        ds.update(i, DeltaModel { new: d.new, ..ds[i] })
    } else {
        ds.push(d)
    }
}

/// The changes with one entry per cell.
pub open spec fn coalesced(ds: Seq<DeltaModel>) -> Seq<DeltaModel>
    decreases ds.len(),
{
    if ds.len() == 0 {
        Seq::empty()
    } else {
        absorbed(coalesced(ds.drop_last()), ds.last())
    }
}

/// No cell occurs twice.
pub open spec fn one_per_cell(ds: Seq<DeltaModel>) -> bool {
    forall|i: int, j: int|
        0 <= i < j < ds.len() ==> !((#[trigger] ds[i]).inst == (#[trigger] ds[j]).inst
            && ds[i].sim_field == ds[j].sim_field)
}

/// Coalescing leaves one entry per cell that changed, from the value before its first change
/// to the value after its last.
pub proof fn law_coalesced(ds: Seq<DeltaModel>)
    ensures
        one_per_cell(coalesced(ds)),
        forall|k: int|
            0 <= k < coalesced(ds).len() ==> {
                let c = #[trigger] coalesced(ds)[k];
                &&& exists|i: int|
                    first_of(ds, i, c.inst, c.sim_field) && (#[trigger] ds[i]).old == c.old
                &&& exists|j: int|
                    last_of(ds, j, c.inst, c.sim_field) && (#[trigger] ds[j]).new == c.new
            },
        forall|i: int|
            0 <= i < ds.len() ==> delta_at(
                coalesced(ds),
                (#[trigger] ds[i]).inst,
                ds[i].sim_field,
            ) < coalesced(ds).len(),
    decreases ds.len(),
{
    if ds.len() > 0 {
        let s = ds.drop_last();
        let d = ds.last();
        law_coalesced(s);
        let c = coalesced(s);
        let r = coalesced(ds);
        let at = delta_at(c, d.inst, d.sim_field);
        lemma_delta_found(c, d.inst, d.sim_field);
        assert forall|i: int, j: int| 0 <= i < j < r.len() implies !((#[trigger] r[i]).inst == (
        #[trigger] r[j]).inst && r[i].sim_field == r[j].sim_field) by {
            if j < c.len() {
                assert(!(c[i].inst == c[j].inst && c[i].sim_field == c[j].sim_field));
            } else {
                assert(!of_cell(c[i], d.inst, d.sim_field));
            }
        }
        assert forall|k: int| 0 <= k < r.len() implies {
            let e = #[trigger] r[k];
            &&& exists|i: int|
                first_of(ds, i, e.inst, e.sim_field) && (#[trigger] ds[i]).old == e.old
            &&& exists|j: int| last_of(ds, j, e.inst, e.sim_field) && (#[trigger] ds[j]).new == e.new
        } by {
            let e = r[k];
            let n = ds.len() - 1;
            if k < c.len() {
                let e0 = c[k];
                let i = choose|i: int|
                    first_of(s, i, e0.inst, e0.sim_field) && (#[trigger] s[i]).old == e0.old;
                assert(ds[i] == s[i]);
                assert(first_of(ds, i, e.inst, e.sim_field)) by {
                    assert forall|x: int| 0 <= x < i implies !of_cell(
                        #[trigger] ds[x],
                        e.inst,
                        e.sim_field,
                    ) by {
                        assert(s[x] == ds[x]);
                    }
                }
                if k == at {
                    assert(last_of(ds, n, e.inst, e.sim_field));
                    assert(ds[n].new == e.new);
                } else {
                    let j = choose|j: int|
                        last_of(s, j, e0.inst, e0.sim_field) && (#[trigger] s[j]).new == e0.new;
                    assert(ds[j] == s[j]);
                    assert(last_of(ds, j, e.inst, e.sim_field)) by {
                        assert forall|x: int| j < x < ds.len() implies !of_cell(
                            #[trigger] ds[x],
                            e.inst,
                            e.sim_field,
                        ) by {
                            if x < n {
                                assert(s[x] == ds[x]);
                            } else if of_cell(ds[n], e.inst, e.sim_field) {
                                if at < c.len() {
                                    assert(of_cell(c[at], d.inst, d.sim_field));
                                    if k < at {
                                        assert(!of_cell(c[k], d.inst, d.sim_field));
                                    } else {
                                        assert(!(c[at].inst == c[k].inst && c[at].sim_field
                                            == c[k].sim_field));
                                    }
                                } else {
                                    assert(!of_cell(c[k], d.inst, d.sim_field));
                                }
                            }
                        }
                    }
                }
            } else {
                assert(e == d);
                assert(last_of(ds, n, e.inst, e.sim_field));
                assert(first_of(ds, n, e.inst, e.sim_field)) by {
                    assert forall|x: int| 0 <= x < n implies !of_cell(
                        #[trigger] ds[x],
                        e.inst,
                        e.sim_field,
                    ) by {
                        assert(s[x] == ds[x]);
                        assert(delta_at(c, s[x].inst, s[x].sim_field) < c.len());
                    }
                }
                assert(ds[n].old == e.old);
                assert(ds[n].new == e.new);
            }
        }
        assert forall|i: int| 0 <= i < ds.len() implies delta_at(
            r,
            (#[trigger] ds[i]).inst,
            ds[i].sim_field,
        ) < r.len() by {
            let (inst, f) = (ds[i].inst, ds[i].sim_field);
            lemma_delta_found(r, inst, f);
            if i < ds.len() - 1 {
                assert(s[i] == ds[i]);
                lemma_delta_found(c, inst, f);
                let x = delta_at(c, inst, f);
                assert(of_cell(r[x], inst, f));
            } else {
                let x = if at < c.len() {
                    at
                } else {
                    c.len() as int
                };
                assert(of_cell(r[x], inst, f));
            }
        }
    }
}

/// The first change of the cell.
pub open spec fn first_of(ds: Seq<DeltaModel>, i: int, inst: InstanceId, f: FieldId) -> bool {
    &&& 0 <= i < ds.len()
    &&& of_cell(ds[i], inst, f)
    &&& forall|x: int| 0 <= x < i ==> !of_cell(#[trigger] ds[x], inst, f)
}

/// The last change of the cell.
pub open spec fn last_of(ds: Seq<DeltaModel>, i: int, inst: InstanceId, f: FieldId) -> bool {
    &&& 0 <= i < ds.len()
    &&& of_cell(ds[i], inst, f)
    &&& forall|x: int| i < x < ds.len() ==> !of_cell(#[trigger] ds[x], inst, f)
}

/// Takes in one change.
pub fn absorb(ds: &mut Vec<TrackedDelta>, d: TrackedDelta)
    ensures
        deltas_of(final(ds)@) == absorbed(deltas_of(old(ds)@), d@),
{
    let ghost m = deltas_of(ds@);
    let mut i: usize = 0;
    while i < ds.len()
        invariant
            m == deltas_of(ds@),
            i <= ds@.len(),
            forall|j: int| 0 <= j < i ==> !of_cell(#[trigger] m[j], d.inst, d.sim_field),
        ensures
            m == deltas_of(ds@),
            i <= ds@.len(),
            forall|j: int| 0 <= j < i ==> !of_cell(#[trigger] m[j], d.inst, d.sim_field),
            i < ds@.len() ==> of_cell(m[i as int], d.inst, d.sim_field),
        decreases ds@.len() - i,
    {
        if ds[i].inst == d.inst && ds[i].sim_field == d.sim_field {
            break;
        }
        i = i + 1;
    }
    proof {
        lemma_delta_at(m, d.inst, d.sim_field, i as int);
    }
    let ghost dm = d@;
    if i < ds.len() {
        ds[i].new = d.new;
        proof {
            assert(deltas_of(ds@) =~= m.update(
                i as int,
                DeltaModel { new: dm.new, ..m[i as int] },
            ));
        }
    } else {
        ds.push(d);
        proof {
            assert(deltas_of(ds@) =~= m.push(dm));
        }
    }
}

/// Coalesces changes.
pub fn coalesce(ds: &Vec<TrackedDelta>) -> (r: Vec<TrackedDelta>)
    ensures
        deltas_of(r@) == coalesced(deltas_of(ds@)),
{
    let mut out: Vec<TrackedDelta> = Vec::new();
    let mut i: usize = 0;
    let ghost m = deltas_of(ds@);
    proof {
        assert(m.take(0) =~= Seq::empty());
        assert(deltas_of(out@) =~= Seq::empty());
    }
    while i < ds.len()
        invariant
            m == deltas_of(ds@),
            i <= ds@.len(),
            deltas_of(out@) == coalesced(m.take(i as int)),
        decreases ds@.len() - i,
    {
        absorb(&mut out, ds[i].clone());
        proof {
            assert(m.take(i + 1).drop_last() =~= m.take(i as int));
            assert(m.take(i + 1).last() == m[i as int]);
        }
        i = i + 1;
    }
    assert(m.take(ds@.len() as int) =~= m);
    out
}

/// What a simulation frame changed.
#[derive(Debug)]
pub struct SimFrame {
    pub sim_frame: u64,
    /// The tracked fields that changed.
    pub changes: Vec<TrackedDelta>,
    /// Every write.
    pub events: Vec<WriteRec>,
    pub births: Vec<InstanceId>,
    pub deaths: Vec<InstanceId>,
}

impl Default for SimFrame {
    fn default() -> (r: SimFrame)
        ensures
            r.sim_frame == 0,
            r.changes@.len() == 0,
            r.events@.len() == 0,
            r.births@.len() == 0,
            r.deaths@.len() == 0,
    {
        SimFrame {
            sim_frame: 0,
            changes: Vec::new(),
            events: Vec::new(),
            births: Vec::new(),
            deaths: Vec::new(),
        }
    }
}

/// The instances of the first `n` writes whose `_alive` is set to `to`, each once.
pub open spec fn turned(log: Seq<WriteModel>, to: bool, n: int) -> Seq<InstanceId>
    decreases n,
{
    if n <= 0 {
        Seq::empty()
    } else {
        let s = turned(log, to, n - 1);
        let w = log[n - 1];
        if w.field.0 == FIELD_ALIVE && w.new == Val::Bool(to) && !s.contains(w.inst) {
            s.push(w.inst)
        } else {
            s
        }
    }
}

/// The changes of tracked fields among the first `n` writes.
pub open spec fn tracked_writes(
    fields: Seq<(EntityTypeId, FieldId)>,
    log: Seq<WriteModel>,
    n: int,
) -> Seq<DeltaModel>
    decreases n,
{
    if n <= 0 {
        Seq::empty()
    } else {
        let s = tracked_writes(fields, log, n - 1);
        let w = log[n - 1];
        if fields.contains((w.inst.ty, w.field)) {
            s.push(delta_of(w))
        } else {
            s
        }
    }
}

impl SimFrame {
    /// The frame that a log of writes makes.
    pub open spec fn made_of(
        self,
        fields: Seq<(EntityTypeId, FieldId)>,
        frame: u64,
        log: Seq<WriteModel>,
    ) -> bool {
        &&& self.sim_frame == frame
        &&& log_of(self.events@) == log
        &&& self.births@ == turned(log, true, log.len() as int)
        &&& self.deaths@ == turned(log, false, log.len() as int)
        &&& deltas_of(self.changes@) == coalesced(tracked_writes(fields, log, log.len() as int))
    }
}

/// Who was born is who was set alive, and who died is who was set dead, each once.
pub proof fn law_births_and_deaths(log: Seq<WriteModel>, to: bool, n: int)
    requires
        0 <= n <= log.len(),
    ensures
        turned(log, to, n).no_duplicates(),
        forall|inst: InstanceId|
            turned(log, to, n).contains(inst) <==> exists|i: int|
                0 <= i < n && (#[trigger] log[i]).inst == inst && log[i].field.0 == FIELD_ALIVE
                    && log[i].new == Val::Bool(to),
    decreases n,
{
    if n > 0 {
        law_births_and_deaths(log, to, n - 1);
        let s = turned(log, to, n - 1);
        let t = turned(log, to, n);
        assert forall|inst: InstanceId| t.contains(inst) <==> exists|i: int|
            0 <= i < n && (#[trigger] log[i]).inst == inst && log[i].field.0 == FIELD_ALIVE
                && log[i].new == Val::Bool(to) by {
            if t.contains(inst) {
                let k = choose|k: int| 0 <= k < t.len() && t[k] == inst;
                if k < s.len() {
                    assert(s[k] == inst);
                    assert(s.contains(inst));
                    let i = choose|i: int|
                        0 <= i < n - 1 && (#[trigger] log[i]).inst == inst && log[i].field.0
                            == FIELD_ALIVE && log[i].new == Val::Bool(to);
                    assert(log[i].inst == inst);
                } else {
                    assert(log[n - 1].inst == inst);
                }
            }
            if exists|i: int|
                0 <= i < n && (#[trigger] log[i]).inst == inst && log[i].field.0 == FIELD_ALIVE
                    && log[i].new == Val::Bool(to) {
                let i = choose|i: int|
                    0 <= i < n && (#[trigger] log[i]).inst == inst && log[i].field.0 == FIELD_ALIVE
                        && log[i].new == Val::Bool(to);
                if i < n - 1 {
                    assert(s.contains(inst));
                }
                if s.contains(inst) {
                    let k = choose|k: int| 0 <= k < s.len() && s[k] == inst;
                    assert(t[k] == inst);
                } else {
                    assert(t[s.len() as int] == inst);
                }
            }
        }
    }
}

fn push_once(v: &mut Vec<InstanceId>, inst: InstanceId)
    ensures
        final(v)@ == (if old(v)@.contains(inst) {
            old(v)@
        } else {
            old(v)@.push(inst)
        }),
{
    let mut i: usize = 0;
    while i < v.len()
        invariant
            v@ == old(v)@,
            i <= v@.len(),
            forall|j: int| 0 <= j < i ==> v@[j] != inst,
        decreases v@.len() - i,
    {
        if v[i] == inst {
            assert(v@.contains(inst));
            return;
        }
        i = i + 1;
    }
    v.push(inst);
}

/// What is published and not yet taken, in order.
pub struct Publisher {
    /// The fields that the render side tracks.
    pub tracked_fields: Vec<(EntityTypeId, FieldId)>,
    pub queue: Vec<SimFrame>,
}

impl Publisher {
    pub fn new(tracked_fields: Vec<(EntityTypeId, FieldId)>) -> (r: Publisher)
        ensures
            r.tracked_fields == tracked_fields,
            r.queue@.len() == 0,
    {
        Publisher { tracked_fields, queue: Vec::new() }
    }

    pub fn is_tracked(&self, ty: EntityTypeId, f: FieldId) -> (r: bool)
        ensures
            r == self.tracked_fields@.contains((ty, f)),
    {
        let mut i: usize = 0;
        while i < self.tracked_fields.len()
            invariant
                i <= self.tracked_fields@.len(),
                forall|j: int| 0 <= j < i ==> self.tracked_fields@[j] != (ty, f),
            decreases self.tracked_fields@.len() - i,
        {
            if self.tracked_fields[i].0 == ty && self.tracked_fields[i].1 == f {
                assert(self.tracked_fields@[i as int] == (ty, f));
                return true;
            }
            i = i + 1;
        }
        false
    }

    /// The frame that a log of writes makes.
    pub fn frame_of(&self, frame: u64, log: &Vec<WriteRec>) -> (r: SimFrame)
        ensures
            r.made_of(self.tracked_fields@, frame, log_of(log@)),
    {
        let mut births: Vec<InstanceId> = Vec::new();
        let mut deaths: Vec<InstanceId> = Vec::new();
        let mut changes: Vec<TrackedDelta> = Vec::new();
        let ghost m = log_of(log@);
        let ghost fs = self.tracked_fields@;
        let mut i: usize = 0;
        assert(deltas_of(changes@) =~= coalesced(tracked_writes(fs, m, 0)));
        while i < log.len()
            invariant
                m == log_of(log@),
                fs == self.tracked_fields@,
                i <= log@.len(),
                births@ == turned(m, true, i as int),
                deaths@ == turned(m, false, i as int),
                deltas_of(changes@) == coalesced(tracked_writes(fs, m, i as int)),
            decreases log@.len() - i,
        {
            let w = &log[i];
            assert(m[i as int] == w@);
            if w.field.0 == FIELD_ALIVE {
                match &w.new {
                    Value::Bool(true) => push_once(&mut births, w.inst),
                    Value::Bool(false) => push_once(&mut deaths, w.inst),
                    _ => {},
                }
            }
            if self.is_tracked(w.inst.ty, w.field) {
                absorb(
                    &mut changes,
                    TrackedDelta {
                        inst: w.inst,
                        sim_field: w.field,
                        old: w.old.clone(),
                        new: w.new.clone(),
                    },
                );
                proof {
                    let a = tracked_writes(fs, m, i as int);
                    let b = tracked_writes(fs, m, i + 1);
                    assert(b.drop_last() =~= a);
                }
            }
            i = i + 1;
        }
        SimFrame { sim_frame: frame, changes, events: copy_log(log), births, deaths }
    }

    /// Publishes what the simulation's last frame routed. Call it after each step.
    pub fn publish<F: for<'a, 'b, 'c> Fn(&'a mut Ctx<'b>, &'c Input)>(&mut self, rt: &Runtime<F>)
        ensures
            final(self).tracked_fields == old(self).tracked_fields,
            final(self).queue@.len() == old(self).queue@.len() + 1,
            final(self).queue@.drop_last() == old(self).queue@,
            final(self).queue@.last().made_of(
                old(self).tracked_fields@,
                rt.frame,
                log_of(rt.last_routed@),
            ),
    {
        let ghost q = self.queue@;
        let frame = self.frame_of(rt.frame(), rt.committed_writes());
        self.queue.push(frame);
        assert(self.queue@.drop_last() =~= q);
    }

    /// Takes every frame that was published and not yet taken, in order.
    pub fn drain(&mut self) -> (r: Vec<SimFrame>)
        ensures
            r@ == old(self).queue@,
            final(self).queue@.len() == 0,
            final(self).tracked_fields == old(self).tracked_fields,
    {
        let mut out: Vec<SimFrame> = Vec::new();
        core::mem::swap(&mut out, &mut self.queue);
        out
    }
}

}
