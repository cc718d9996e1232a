//! The clock: the runtime writes the frame number and due alarms as ordinary writes.
//!
//! A subscription to `Clock.frame` is polling, at a price that is visible. An alarm is a
//! write to `Clock.alarm` in the frame it was set for.
use crate::entity::EntityTypeId;
use crate::entity::FieldId;
use crate::entity::InstanceId;
use crate::runtime::lifecycle::log_of;
use crate::runtime::lifecycle::push_log;
use crate::runtime::lifecycle::WriteModel;
use crate::runtime::lifecycle::WriteRec;
use crate::runtime::store::Store;
use crate::value::vals_of;
use crate::value::Val;
use crate::value::Value;
use std::collections::HashMap;
use vstd::prelude::*;

verus! {

broadcast use vstd::std_specs::hash::group_hash_axioms;

pub struct Clock {
    pub ty: EntityTypeId,
    pub inst: InstanceId,
    pub f_frame: FieldId,
    pub f_alarm: FieldId,
    /// The payloads to write, by frame.
    pub alarms: HashMap<u64, Vec<Value>>,
}

/// The writes of alarms with these payloads.
pub open spec fn rings(clock: Clock, store: Store, d: Seq<Val>) -> Seq<WriteModel> {
    Seq::new(
        d.len(),
        |i: int|
            WriteModel {
                inst: clock.inst,
                field: clock.f_alarm,
                old: store.value(clock.inst, clock.f_alarm),
                new: d[i],
            },
    )
}

/// The writes of the clock in a frame: the frame number, then what is due.
pub open spec fn tick_log(clock: Clock, store: Store, frame: u64) -> Seq<WriteModel> {
    seq![
        WriteModel {
            inst: clock.inst,
            field: clock.f_frame,
            old: store.value(clock.inst, clock.f_frame),
            new: Val::Int(frame as i64),
        },
    ] + rings(clock, store, clock.due(frame))
}

impl Clock {
    pub fn new(ty: EntityTypeId, inst: InstanceId, f_frame: FieldId, f_alarm: FieldId) -> (r: Clock)
        ensures
            r.ty == ty,
            r.inst == inst,
            r.f_frame == f_frame,
            r.f_alarm == f_alarm,
            forall|frame: u64| (#[trigger] r.due(frame)).len() == 0,
    {
        Clock { ty, inst, f_frame, f_alarm, alarms: HashMap::new() }
    }

    /// The clock is the same but for its alarms.
    pub open spec fn same_cells(self, other: Clock) -> bool {
        &&& self.ty == other.ty
        &&& self.inst == other.inst
        &&& self.f_frame == other.f_frame
        &&& self.f_alarm == other.f_alarm
    }

    /// The payloads that are due in a frame, in the order they were set.
    pub open spec fn due(self, frame: u64) -> Seq<Val> {
        if self.alarms@.contains_key(frame) {
            vals_of(self.alarms@[frame]@)
        } else {
            Seq::empty()
        }
    }

    /// The same alarms are set.
    pub open spec fn same_alarms(self, other: Clock) -> bool {
        forall|frame: u64| #[trigger] self.due(frame) == other.due(frame)
    }

    /// One alarm more.
    pub open spec fn alarm_added(self, other: Clock, at: u64, payload: Val) -> bool {
        forall|frame: u64| #[trigger]
            self.due(frame) == (if frame == at {
                other.due(frame).push(payload)
            } else {
                other.due(frame)
            })
    }

    /// The alarms of a frame were taken out.
    pub open spec fn alarms_rung(self, other: Clock, at: u64) -> bool {
        forall|frame: u64| #[trigger]
            self.due(frame) == (if frame == at {
                Seq::empty()
            } else {
                other.due(frame)
            })
    }

    pub fn set_alarm(&mut self, at_frame: u64, payload: Value)
        ensures
            final(self).same_cells(*old(self)),
            final(self).alarm_added(*old(self), at_frame, payload@),
    {
        let ghost before = *self;
        let mut v: Vec<Value> = match self.alarms.remove(&at_frame) {
            Some(v) => v,
            None => Vec::new(),
        };
        let ghost v0 = v@;
        v.push(payload);
        let ghost v1 = v@;
        self.alarms.insert(at_frame, v);
        proof {
            assert(vals_of(v0) =~= before.due(at_frame));
            assert(vals_of(v1) =~= vals_of(v0).push(payload@));
        }
    }

    /// The writes of the clock in a frame: the frame number, then every due alarm. The data
    /// itself is not touched yet.
    pub fn tick(&mut self, frame: u64, store: &Store, log: &mut Vec<WriteRec>)
        requires
            store.wf(),
            frame <= i64::MAX,
        ensures
            final(self).same_cells(*old(self)),
            final(self).alarms_rung(*old(self), frame),
            log_of(final(log)@) == log_of(old(log)@) + tick_log(*old(self), *store, frame),
    {
        let ghost l0 = log_of(log@);
        let ghost c0 = *self;
        let before = store.read(self.inst, self.f_frame);
        push_log(
            log,
            WriteRec {
                inst: self.inst,
                field: self.f_frame,
                old: before,
                new: Value::Int(frame as i64),
            },
        );
        let ghost l1 = log_of(log@);
        let due: Vec<Value> = match self.alarms.remove(&frame) {
            Some(v) => v,
            None => Vec::new(),
        };
        let ghost d = c0.due(frame);
        proof {
            assert(vals_of(due@) =~= d);
            assert(self.due(frame) =~= Seq::empty());
            assert(log_of(log@) =~= l1 + rings(c0, *store, d.take(0)));
        }
        let mut i: usize = 0;
        while i < due.len()
            invariant
                store.wf(),
                self.same_cells(c0),
                self.alarms_rung(c0, frame),
                vals_of(due@) == d,
                i <= due@.len(),
                log_of(log@) == l1 + rings(c0, *store, d.take(i as int)),
            decreases due@.len() - i,
        {
            let ghost part = log_of(log@);
            let old = store.read(self.inst, self.f_alarm);
            push_log(
                log,
                WriteRec { inst: self.inst, field: self.f_alarm, old, new: due[i].clone() },
            );
            proof {
                assert(d[i as int] == due@[i as int]@);
                assert(d.take(i + 1) =~= d.take(i as int).push(d[i as int]));
                assert(log_of(log@) =~= l1 + rings(c0, *store, d.take(i + 1)));
            }
            i = i + 1;
        }
        assert(d.take(d.len() as int) =~= d);
        assert(log_of(log@) =~= l0 + tick_log(c0, *store, frame));
    }
}

impl Clone for Clock {
    fn clone(&self) -> (r: Clock)
        ensures
            r.same_cells(*self),
            r.same_alarms(*self),
    {
        Clock {
            ty: self.ty,
            inst: self.inst,
            f_frame: self.f_frame,
            f_alarm: self.f_alarm,
            alarms: self.alarms.clone(),
        }
    }
}

/// An alarm rings in its frame, after those set before it, and in no other. Once it rang it
/// does not ring again.
pub proof fn law_alarms_ring_once(
    before: Clock,
    set: Clock,
    rung: Clock,
    store: Store,
    at: u64,
    payload: Val,
    frame: u64,
)
    requires
        set.same_cells(before),
        set.alarm_added(before, at, payload),
        rung.same_cells(set),
        rung.alarms_rung(set, at),
    ensures
        tick_log(set, store, at).last().inst == before.inst,
        tick_log(set, store, at).last().field == before.f_alarm,
        tick_log(set, store, at).last().new == payload,
        tick_log(set, store, at).last().old == store.value(before.inst, before.f_alarm),
        tick_log(set, store, at).len() == tick_log(before, store, at).len() + 1,
        tick_log(set, store, at).drop_last() == tick_log(before, store, at),
        frame != at ==> tick_log(set, store, frame) == tick_log(before, store, frame),
        frame != at ==> tick_log(rung, store, frame) == tick_log(set, store, frame),
        tick_log(rung, store, at).len() == 1,
{
    assert(set.due(at) == before.due(at).push(payload));
    assert(tick_log(set, store, at).drop_last() =~= tick_log(before, store, at));
    assert(set.due(frame) == (if frame == at {
        before.due(frame).push(payload)
    } else {
        before.due(frame)
    }));
    assert(rung.due(at).len() == 0);
    if frame != at {
        assert(rung.due(frame) == set.due(frame));
        assert(tick_log(set, store, frame) =~= tick_log(before, store, frame));
        assert(tick_log(rung, store, frame) =~= tick_log(set, store, frame));
    }
}

/// Every frame is told its number first, on the clock's own field, as the successor of what
/// the frame before was told.
pub proof fn law_frames_are_counted(clock: Clock, store: Store, frame: u64)
    requires
        frame < i64::MAX,
    ensures
        tick_log(clock, store, frame)[0].inst == clock.inst,
        tick_log(clock, store, frame)[0].field == clock.f_frame,
        tick_log(clock, store, frame)[0].new is Int,
        tick_log(clock, store, frame)[0].new->Int_0 == frame,
        tick_log(clock, store, (frame + 1) as u64)[0].new->Int_0 == tick_log(
            clock,
            store,
            frame,
        )[0].new->Int_0 + 1,
        tick_log(clock, store, frame)[0].old == store.value(clock.inst, clock.f_frame),
{
}

}
