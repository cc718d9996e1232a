//! One frame: route, run, commit.
use crate::calculation::CalcId;
use crate::calculation::Ctx;
use crate::calculation::Input;
use crate::entity::EntityTypeId;
use crate::entity::FieldId;
use crate::entity::InstanceId;
use crate::entity::FIELD_ALIVE;
use crate::runtime::clock::tick_log;
use crate::runtime::clock::Clock;
use crate::runtime::commit::commit;
use crate::runtime::commit::committed;
use crate::runtime::commit::deaths_in;
use crate::runtime::commit::folds_after;
use crate::runtime::commit::log_ok;
use crate::runtime::commit::losing_all;
use crate::runtime::commit::written;
use crate::runtime::engine::lemma_schema_ok;
use crate::runtime::engine::Runtime;
use crate::runtime::exec::callable;
use crate::runtime::exec::fresh_ctx;
use crate::runtime::exec::run_all;
use crate::runtime::exec::run_all_parallel;
use crate::runtime::exec::runnable;
use crate::runtime::exec::RunResult;
use crate::runtime::lifecycle::copy_log;
use crate::runtime::lifecycle::log_of;
use crate::runtime::lifecycle::refs_ok;
use crate::runtime::lifecycle::WriteModel;
use crate::runtime::lifecycle::WriteRec;
use crate::runtime::merge::allowed;
use crate::runtime::merge::merge_all;
use crate::runtime::merge::merge_results;
use crate::runtime::merge::merged_ok;
use crate::runtime::merge::spawns_upto;
use crate::runtime::merge::Note;
use crate::runtime::merge::Outcome;
use crate::runtime::profile::bumped;
use crate::runtime::profile::Profile;
use crate::runtime::refs::is_ref;
use crate::runtime::refs::Edge;
use crate::runtime::refs::RefTable;
use crate::runtime::route::folds_of;
use crate::runtime::route::frame_ok;
use crate::runtime::route::trig_ok;
use crate::runtime::route::trigs_of;
use crate::runtime::route::trigs_ok;
use crate::runtime::route::FoldTable;
use crate::runtime::route::Frame;
use crate::runtime::route::Trig;
use crate::runtime::route::Trigger;
use crate::runtime::routing::frame_triggers;
use crate::runtime::routing::route;
use crate::runtime::routing::route_log;
use crate::runtime::routing::start_frame;
use crate::runtime::routing::World;
use crate::runtime::schedule::build_schedule;
use crate::runtime::schedule::by_calc;
use crate::runtime::schedule::ecs_trigs;
use crate::runtime::schedule::law_by_calc;
use crate::runtime::schedule::plan;
use crate::runtime::schedule::push_ecs_triggers;
use crate::runtime::schedule::sort_by_calc;
use crate::runtime::store::Store;
use crate::value::Val;
use vstd::prelude::*;

verus! {

/// What is to be known of a frame: what went against declarations, and what became of each
/// request to create an instance.
pub struct FrameReport {
    pub notes: Vec<Note>,
    pub born: Vec<Option<InstanceId>>,
}

/// A count after the first `n` writes of a log.
pub open spec fn write_count(
    log: Seq<WriteModel>,
    n: int,
    ty: EntityTypeId,
    field: FieldId,
    start: u64,
) -> u64
    decreases n,
{
    if n <= 0 {
        start
    } else {
        let c = write_count(log, n - 1, ty, field, start);
        if log[n - 1].inst.ty == ty && log[n - 1].field == field {
            bumped(c)
        } else {
            c
        }
    }
}

/// The counts of triggers after the first `n`.
pub open spec fn trigger_counts(ts: Seq<Trig>, n: int, start: Seq<u64>) -> Seq<u64>
    decreases n,
{
    if n <= 0 {
        start
    } else {
        let c = trigger_counts(ts, n - 1, start);
        let i = ts[n - 1].calc.0 as int;
        c.update(i, bumped(c[i]))
    }
}

impl Profile {
    /// Counts the writes of a log.
    fn count_writes(&mut self, log: &Vec<WriteRec>)
        requires
            old(self).wf(),
        ensures
            final(self).wf(),
            final(self).frames == old(self).frames,
            final(self).last_writes == old(self).last_writes,
            final(self).last_triggers == old(self).last_triggers,
            final(self).trigger_counts == old(self).trigger_counts,
            forall|t: EntityTypeId, f: FieldId| #[trigger]
                final(self).writes_to(t, f) == write_count(
                    log_of(log@),
                    log@.len() as int,
                    t,
                    f,
                    old(self).writes_to(t, f),
                ),
    {
        let ghost p0 = *self;
        let ghost m = log_of(log@);
        let mut i: usize = 0;
        while i < log.len()
            invariant
                m == log_of(log@),
                i <= log@.len(),
                self.wf(),
                self.frames == p0.frames,
                self.last_writes == p0.last_writes,
                self.last_triggers == p0.last_triggers,
                self.trigger_counts == p0.trigger_counts,
                forall|t: EntityTypeId, f: FieldId| #[trigger]
                    self.writes_to(t, f) == write_count(m, i as int, t, f, p0.writes_to(t, f)),
            decreases log@.len() - i,
        {
            let ghost pi = *self;
            self.count_write(log[i].inst.ty, log[i].field);
            proof {
                assert forall|t: EntityTypeId, f: FieldId| #[trigger] self.writes_to(t, f)
                    == write_count(m, i + 1, t, f, p0.writes_to(t, f)) by {
                    assert(pi.writes_to(t, f) == write_count(
                        m,
                        i as int,
                        t,
                        f,
                        p0.writes_to(t, f),
                    ));
                }
            }
            i = i + 1;
        }
    }

    /// Counts triggers.
    fn count_triggers(&mut self, ts: &Vec<Trigger>)
        requires
            old(self).wf(),
            forall|i: int|
                0 <= i < ts@.len() ==> (#[trigger] ts@[i]).calc.0 < old(
                    self,
                ).trigger_counts@.len(),
        ensures
            final(self).wf(),
            final(self).frames == old(self).frames,
            final(self).last_writes == old(self).last_writes,
            final(self).last_triggers == old(self).last_triggers,
            final(self).write_counts == old(self).write_counts,
            final(self).trigger_counts@ == trigger_counts(
                trigs_of(ts@),
                ts@.len() as int,
                old(self).trigger_counts@,
            ),
            final(self).trigger_counts@.len() == old(self).trigger_counts@.len(),
    {
        let ghost p0 = *self;
        let ghost m = trigs_of(ts@);
        let mut i: usize = 0;
        while i < ts.len()
            invariant
                m == trigs_of(ts@),
                forall|k: int|
                    0 <= k < ts@.len() ==> (#[trigger] ts@[k]).calc.0
                        < self.trigger_counts@.len(),
                i <= ts@.len(),
                self.wf(),
                self.frames == p0.frames,
                self.last_writes == p0.last_writes,
                self.last_triggers == p0.last_triggers,
                self.write_counts == p0.write_counts,
                self.trigger_counts@ == trigger_counts(m, i as int, p0.trigger_counts@),
                self.trigger_counts@.len() == p0.trigger_counts@.len(),
            decreases ts@.len() - i,
        {
            self.count_trigger(ts[i].calc);
            i = i + 1;
        }
    }
}

impl<F> Runtime<F> {
    /// What routing reads.
    pub open spec fn world(self) -> World {
        World {
            store: self.store,
            infos: self.infos@,
            idx: self.idx,
            refs: self.refs,
            tys: self.tys@,
        }
    }

    /// The writes that the next frame routes.
    pub open spec fn next_log(self) -> Seq<WriteModel> {
        log_of(self.pending@) + tick_log(self.clock, self.store, (self.frame + 1) as u64)
    }

    /// What routing comes to in the next frame.
    pub open spec fn next_routing(self) -> Frame {
        route_log(
            self.world(),
            start_frame(self.store, folds_of(self.folds@), self.fold_dirty@),
            self.next_log(),
            self.next_log().len() as int,
        )
    }

    /// The triggers of the next frame as they come, before they are ordered.
    pub open spec fn next_trigs(self) -> Seq<Trig> {
        frame_triggers(self.next_routing(), self.infos@, self.determinism) + ecs_trigs(
            self.store,
            self.infos@,
            self.ecs_calcs@,
            self.clock.inst,
            (self.frame + 1) as u64,
            self.ecs_calcs@.len() as int,
        )
    }

    /// Registrations and settings are those of `other`.
    pub open spec fn same_rules(self, other: Runtime<F>) -> bool {
        &&& self.infos == other.infos
        &&& self.tys == other.tys
        &&& self.bodies == other.bodies
        &&& self.owners == other.owners
        &&& self.idx == other.idx
        &&& self.ecs_calcs == other.ecs_calcs
        &&& self.detect == other.detect
        &&& self.determinism == other.determinism
        &&& self.render_feed == other.render_feed
        &&& self.clock.same_cells(other.clock)
    }

    /// The first half of a frame: the pending writes were routed.
    pub open spec fn begun(self, before: Runtime<F>, triggers: Seq<Trig>) -> bool {
        let frame = (before.frame + 1) as u64;
        let log = before.next_log();
        let trigs = before.next_trigs();
        &&& self.same_rules(before)
        &&& self.store == before.store
        &&& self.refs == before.refs
        &&& self.frame == frame
        &&& self.clock.alarms_rung(before.clock, frame)
        &&& folds_of(self.folds@) == before.next_routing().folds
        &&& self.fold_dirty@.len() == 0
        &&& self.pending@.len() == 0
        &&& trigs_ok(trigs, before.infos@)
        &&& triggers == by_calc(trigs, before.infos@.len() as int)
        &&& self.profile.frames == frame
        &&& self.profile.last_writes == log.len()
        &&& self.profile.last_triggers == trigs.len()
        &&& self.profile.trigger_counts@ == trigger_counts(
            trigs,
            trigs.len() as int,
            before.profile.trigger_counts@,
        )
        &&& forall|t: EntityTypeId, f: FieldId| #[trigger]
            self.profile.writes_to(t, f) == write_count(
                log,
                log.len() as int,
                t,
                f,
                before.profile.writes_to(t, f),
            )
        &&& self.schedule@ == plan(triggers, before.infos@, self.profile)
        &&& log_of(self.last_routed@) == (if before.render_feed {
            log
        } else {
            log_of(before.last_routed@)
        })
    }

    /// Routes the pending writes and the clock, and gives the triggers of the frame in the
    /// order in which they run, and the writes of the clock.
    pub fn begin_frame(&mut self) -> (r: (Vec<Trigger>, Vec<WriteRec>))
        requires
            old(self).wf(),
            old(self).frame < i64::MAX,
        ensures
            final(self).wf(),
            final(self).begun(*old(self), trigs_of(r.0@)),
            trigs_ok(trigs_of(r.0@), final(self).infos@),
            log_of(r.1@) == tick_log(
                old(self).clock,
                old(self).store,
                (old(self).frame + 1) as u64,
            ),
    {
        let ghost before = *self;
        let frame: u64 = self.frame + 1;
        self.frame = frame;
        let mut clock_writes: Vec<WriteRec> = Vec::new();
        self.clock.tick(frame, &self.store, &mut clock_writes);
        proof {
            assert(log_of(clock_writes@) =~= tick_log(before.clock, before.store, frame));
        }
        let mut w: Vec<WriteRec> = Vec::new();
        core::mem::swap(&mut w, &mut self.pending);
        let mut more = copy_log(&clock_writes);
        let ghost w0 = w@;
        let ghost more0 = more@;
        w.append(&mut more);
        proof {
            assert(log_of(w@) =~= log_of(w0) + log_of(more0));
            assert(log_of(w@) == before.next_log());
        }
        self.profile.frames = frame;
        self.profile.last_writes = w.len();
        let ghost uncounted = self.profile;
        self.profile.count_writes(&w);
        let ghost counted = self.profile;
        if self.render_feed {
            self.last_routed = copy_log(&w);
        }
        let mut dirty: Vec<(CalcId, InstanceId)> = Vec::new();
        core::mem::swap(&mut dirty, &mut self.fold_dirty);
        let mut folds = FoldTable::new();
        core::mem::swap(&mut folds, &mut self.folds);
        proof {
            assert(dirty@ == before.fold_dirty@);
            assert(folds@ == before.folds@);
        }
        let (mut triggers, folds) = route(
            &self.store,
            &self.idx,
            &self.refs,
            &self.infos,
            &self.tys,
            folds,
            &w,
            self.determinism,
            &dirty,
        );
        self.folds = folds;
        proof {
            assert(folds_of(self.folds@) == before.next_routing().folds);
            assert(frame_ok(before.next_routing(), self.infos@));
        }
        push_ecs_triggers(
            &self.store,
            &self.infos,
            &self.ecs_calcs,
            &self.clock,
            frame,
            &mut triggers,
        );
        let ghost trigs = trigs_of(triggers@);
        proof {
            assert(trigs == before.next_trigs());
            assert forall|i: int| 0 <= i < triggers@.len() implies (
            #[trigger] triggers@[i]).calc.0 < self.infos@.len() by {
                assert(trig_ok(trigs[i], self.infos@));
            }
        }
        self.profile.last_triggers = triggers.len();
        self.profile.count_triggers(&triggers);
        let triggers = sort_by_calc(triggers, self.infos.len());
        proof {
            let n = self.infos@.len() as int;
            law_by_calc(trigs, n);
            let sorted = trigs_of(triggers@);
            assert forall|i: int| 0 <= i < sorted.len() implies trig_ok(
                #[trigger] sorted[i],
                self.infos@,
            ) by {
                assert(trigs.contains(sorted[i]));
                let k = choose|k: int| 0 <= k < trigs.len() && trigs[k] == sorted[i];
                assert(trig_ok(trigs[k], self.infos@));
            }
        }
        self.schedule = build_schedule(&triggers, &self.infos, &self.profile);
        proof {
            assert(before.clock.ty == self.clock.ty);
            assert(self.profile.write_counts == counted.write_counts);
            assert(uncounted.write_counts == before.profile.write_counts);
            assert forall|t: EntityTypeId, f: FieldId| #[trigger] self.profile.writes_to(t, f)
                == write_count(
                before.next_log(),
                before.next_log().len() as int,
                t,
                f,
                before.profile.writes_to(t, f),
            ) by {
                assert(self.profile.writes_to(t, f) == counted.writes_to(t, f));
                assert(uncounted.writes_to(t, f) == before.profile.writes_to(t, f));
            }
            assert(self.begun(before, trigs_of(triggers@)));
        }
        (triggers, clock_writes)
    }
}

/// The writes are to the cells of the clock.
pub open spec fn clock_cells(log: Seq<WriteModel>, clock: Clock) -> bool {
    forall|i: int|
        0 <= i < log.len() ==> (#[trigger] log[i]).inst == clock.inst && (log[i].field
            == clock.f_frame || log[i].field == clock.f_alarm)
}

/// The data after the writes of the clock.
pub open spec fn clock_applied(after: Store, before: Store, log: Seq<WriteModel>) -> bool {
    &&& after.wf()
    &&& after.same_schema(before)
    &&& after.gone_kept(before)
    &&& after.same_layouts(before)
    &&& forall|i: InstanceId| #[trigger] after.has(i) <==> before.has(i)
    &&& forall|i: InstanceId, f: FieldId| #[trigger]
        after.value(i, f) == (if before.has(i) {
            written(log, log.len() as int, i, f, before.value(i, f))
        } else {
            before.value(i, f)
        })
}

pub proof fn lemma_not_clock(log: Seq<WriteModel>, n: int, clock: Clock, i: InstanceId, f: FieldId, v: Val)
    requires
        clock_cells(log, clock),
        0 <= n <= log.len(),
        i != clock.inst || (f != clock.f_frame && f != clock.f_alarm),
    ensures
        written(log, n, i, f, v) == v,
    decreases n,
{
    if n > 0 {
        lemma_not_clock(log, n - 1, clock, i, f, v);
        assert(log[n - 1].inst == clock.inst);
    }
}

/// Writes the cells of the clock.
fn set_clock(store: &mut Store, refs: &RefTable, clock: &Clock, log: &Vec<WriteRec>)
    requires
        old(store).wf(),
        refs_ok(*old(store), *refs),
        crate::runtime::engine::clock_ok(*clock, *old(store)),
        clock_cells(log_of(log@), *clock),
    ensures
        clock_applied(*final(store), *old(store), log_of(log@)),
        refs_ok(*final(store), *refs),
{
    let ghost s0 = *store;
    let ghost m = log_of(log@);
    let mut k: usize = 0;
    while k < log.len()
        invariant
            m == log_of(log@),
            clock_cells(m, *clock),
            crate::runtime::engine::clock_ok(*clock, s0),
            k <= log@.len(),
            store.wf(),
            store.same_schema(s0),
            store.gone_kept(s0),
            store.same_layouts(s0),
            forall|i: InstanceId| #[trigger] store.has(i) <==> s0.has(i),
            forall|i: InstanceId, f: FieldId| #[trigger]
                store.value(i, f) == (if s0.has(i) {
                    written(m, k as int, i, f, s0.value(i, f))
                } else {
                    s0.value(i, f)
                }),
        decreases log@.len() - k,
    {
        let rec = &log[k];
        let ghost sk = *store;
        proof {
            assert(m[k as int] == rec@);
            assert(m[k as int].inst == clock.inst);
            crate::runtime::lifecycle::lemma_schema_refs(sk, s0);
            assert(s0.field_known(rec.inst.ty, rec.field));
            assert(sk.field_known(rec.inst.ty, rec.field));
        }
        store.set(rec.inst, rec.field, rec.new.clone());
        proof {
            assert forall|i: InstanceId, f: FieldId| #[trigger] store.value(i, f) == (if s0.has(
                i,
            ) {
                written(m, k + 1, i, f, s0.value(i, f))
            } else {
                s0.value(i, f)
            }) by {
                assert(sk.value(i, f) == (if s0.has(i) {
                    written(m, k as int, i, f, s0.value(i, f))
                } else {
                    s0.value(i, f)
                }));
                assert(sk.has(i) <==> s0.has(i));
            }
            assert(store.same_schema(s0)) by {
                assert forall|x: int| 0 <= x < store.types@.len() implies (
                #[trigger] store.types@[x]).same_schema(s0.types@[x]) by {
                    assert(sk.types@[x].same_schema(s0.types@[x]));
                }
            }
            assert forall|i: InstanceId| s0.gone(i) implies #[trigger] store.gone(i) by {
                assert(sk.gone(i));
            }
            crate::runtime::commit::lemma_same_layouts(*store, sk, s0);
        }
        k = k + 1;
    }
    proof {
        let s1 = *store;
        let n = log@.len() as int;
        crate::runtime::lifecycle::lemma_schema_refs(s1, s0);
        assert forall|i: InstanceId, f: FieldId| is_ref(s0, i.ty, f) || f.0
            == FIELD_ALIVE implies #[trigger] s1.value(i, f) == s0.value(i, f) by {
            if i == clock.inst && (f == clock.f_frame || f == clock.f_alarm) {
                assert(!is_ref(s0, clock.ty, f));
            } else {
                lemma_not_clock(m, n, *clock, i, f, s0.value(i, f));
            }
        }
        assert forall|e: Edge| #[trigger] refs.has(e) implies {
            &&& s1.has(e.holder)
            &&& is_ref(s1, e.holder.ty, e.field)
            &&& s1.value(e.holder, e.field) == Val::Ref(e.target)
        } by {
            assert(is_ref(s0, e.holder.ty, e.field));
            assert(s1.value(e.holder, e.field) == s0.value(e.holder, e.field));
        }
        assert forall|h: InstanceId, f: FieldId, t: InstanceId|
            #![trigger refs.has(Edge { target: t, holder: h, field: f })]
            s1.is_alive(h) && is_ref(s1, h.ty, f) && s1.value(h, f) == Val::Ref(
                t,
            ) implies refs.has(Edge { target: t, holder: h, field: f }) by {
            assert(is_ref(s0, h.ty, f));
            assert(s1.value(h, f) == s0.value(h, f));
            assert(s1.value(h, FieldId(FIELD_ALIVE)) == s0.value(h, FieldId(FIELD_ALIVE)));
            assert(s0.is_alive(h));
        }
    }
}

/// The writes of the clock go to its cells.
proof fn lemma_tick_cells(clock: Clock, store: Store, frame: u64)
    ensures
        clock_cells(tick_log(clock, store, frame), clock),
{
}

impl<F> Runtime<F> {
    /// The second half of a frame: what the runs asked for was merged and committed.
    pub open spec fn finished(
        self,
        before: Runtime<F>,
        clock_log: Seq<WriteModel>,
        triggers: Seq<Trigger>,
        results: Seq<RunResult>,
        report: FrameReport,
    ) -> bool {
        let n = triggers.len() as int;
        let merged = merge_all(before.store, before.infos@, triggers, results, n);
        let deaths = deaths_in(merged.log, merged.log.len() as int);
        &&& self.same_rules(before)
        &&& self.clock == before.clock
        &&& self.frame == before.frame
        &&& self.profile == before.profile
        &&& self.schedule == before.schedule
        &&& self.last_routed == before.last_routed
        &&& report.notes@ == merged.notes
        &&& merged_ok(before.store, before.infos@, triggers, merged.log)
        &&& self.store.same_schema(before.store)
        &&& self.store.gone_kept(before.store)
        &&& exists|s: Store|
            {
                &&& #[trigger] clock_applied(s, before.store, clock_log)
                &&& committed(
                    self.store,
                    s,
                    merged.log,
                    spawns_upto(results, n),
                    report.born@,
                    log_of(self.pending@),
                )
            }
        &&& folds_of(self.folds@) == folds_after(
            folds_of(before.folds@),
            deaths,
            deaths.len() as int,
        )
        &&& self.fold_dirty@ == before.fold_dirty@ + losing_all(
            folds_of(before.folds@),
            deaths,
            deaths.len() as int,
        )
    }

    /// Merges and commits what the runs of a frame asked for, whatever that is.
    pub fn finish_frame(
        &mut self,
        clock_writes: &Vec<WriteRec>,
        triggers: &Vec<Trigger>,
        results: Vec<RunResult>,
    ) -> (r: FrameReport)
        requires
            old(self).wf(),
            old(self).pending@.len() == 0,
            clock_cells(log_of(clock_writes@), old(self).clock),
            trigs_ok(trigs_of(triggers@), old(self).infos@),
            results@.len() == triggers@.len(),
            forall|i: int|
                0 <= i < results@.len() && !old(self).store.is_alive(triggers@[i].subscriber)
                    ==> (#[trigger] results@[i]).writes@.len() == 0,
        ensures
            final(self).wf(),
            final(self).finished(*old(self), log_of(clock_writes@), triggers@, results@, r),
    {
        let ghost before = *self;
        let ghost clock_log = log_of(clock_writes@);
        let Outcome { log, spawns, notes } = merge_results(
            &self.store,
            &self.infos,
            triggers,
            results,
        );
        let ghost m = log_of(log@);
        set_clock(&mut self.store, &self.refs, &self.clock, clock_writes);
        let ghost s1 = self.store;
        proof {
            lemma_schema_ok(s1, before.store, self.infos@, self.tys@, self.clock);
            lemma_log_ok(before, s1, clock_log, triggers@, m);
        }
        let (next, born) = commit(
            &mut self.store,
            &mut self.refs,
            &mut self.folds,
            &mut self.fold_dirty,
            log,
            spawns,
            Ghost(self.infos@),
        );
        self.pending = next;
        proof {
            lemma_schema_ok(self.store, s1, self.infos@, self.tys@, self.clock);
            assert(self.store.same_schema(before.store)) by {
                assert forall|x: int| 0 <= x < self.store.types@.len() implies (
                #[trigger] self.store.types@[x]).same_schema(before.store.types@[x]) by {
                    assert(s1.types@[x].same_schema(before.store.types@[x]));
                }
            }
            assert forall|i: InstanceId| before.store.gone(i) implies #[trigger] self.store.gone(
                i,
            ) by {
                assert(s1.gone(i));
            }
            assert(clock_applied(s1, before.store, clock_log));
        }
        FrameReport { notes, born }
    }
}

/// What the runs wrote can be committed after the clock.
proof fn lemma_log_ok<F>(
    rt: Runtime<F>,
    s1: Store,
    clock_log: Seq<WriteModel>,
    triggers: Seq<Trigger>,
    log: Seq<WriteModel>,
)
    requires
        rt.wf(),
        clock_cells(clock_log, rt.clock),
        clock_applied(s1, rt.store, clock_log),
        trigs_ok(trigs_of(triggers), rt.infos@),
        merged_ok(rt.store, rt.infos@, triggers, log),
    ensures
        log_ok(s1, log),
{
    let n = clock_log.len() as int;
    let s0 = rt.store;
    crate::runtime::lifecycle::lemma_schema_refs(s1, s0);
    assert forall|i: int| 0 <= i < log.len() implies {
        &&& (#[trigger] log[i]).old == s1.value(log[i].inst, log[i].field)
        &&& s1.is_alive(log[i].inst)
        &&& s1.field_known(log[i].inst.ty, log[i].field)
        &&& log[i].field.0 == FIELD_ALIVE ==> log[i].new == Val::Bool(false)
    } by {
        let w = log[i];
        let t = choose|t: int|
            0 <= t < triggers.len() && (#[trigger] triggers[t]).subscriber == log[i].inst
                && allowed(
                rt.infos@[triggers[t].calc.0 as int].declared_writes@,
                log[i].field,
                log[i].new,
            ) && s0.is_alive(log[i].inst);
        let c = triggers[t].calc.0 as int;
        assert(trig_ok(trigs_of(triggers)[t], rt.infos@));
        assert(trigs_of(triggers)[t] == triggers[t]@);
        assert(w.inst.ty == rt.infos@[c].ty);
        let declared = rt.infos@[c].declared_writes@;
        assert(s0.at(w.inst.ty).wf());
        if w.field.0 != FIELD_ALIVE {
            assert(declared.contains(w.field));
            let x = choose|x: int| 0 <= x < declared.len() && declared[x] == w.field;
            assert(s0.field_known(rt.infos@[c].ty, rt.infos@[c].declared_writes@[x]));
            assert(rt.infos@[c].ty != rt.clock.ty);
            assert(w.inst != rt.clock.inst);
        }
        lemma_not_clock(clock_log, n, rt.clock, w.inst, w.field, s0.value(w.inst, w.field));
        lemma_not_clock(
            clock_log,
            n,
            rt.clock,
            w.inst,
            FieldId(FIELD_ALIVE),
            s0.value(w.inst, FieldId(FIELD_ALIVE)),
        );
        assert(s0.has(w.inst));
        assert(s1.value(w.inst, FieldId(FIELD_ALIVE)) == s0.value(
            w.inst,
            FieldId(FIELD_ALIVE),
        ));
        assert(s1.value(w.inst, w.field) == s0.value(w.inst, w.field));
        assert(s0.field_known(w.inst.ty, w.field));
        assert(s1.field_known(w.inst.ty, w.field));
    }
}

impl<F: for<'a, 'b, 'c> Fn(&'a mut Ctx<'b>, &'c Input)> Runtime<F> {
    /// Every body can be run.
    pub open spec fn bodies_callable(self) -> bool {
        forall|c: int| 0 <= c < self.bodies@.len() ==> callable(#[trigger] self.bodies@[c])
    }

    /// Advances one frame: the pending writes are routed, every trigger runs against the data
    /// as it is before the frame, and what the runs ask for is merged and committed.
    pub fn step(&mut self) -> (r: FrameReport)
        requires
            old(self).wf(),
            old(self).frame < i64::MAX,
            old(self).bodies_callable(),
        ensures
            final(self).wf(),
            final(self).frame == old(self).frame + 1,
            final(self).same_rules(*old(self)),
            exists|mid: Runtime<F>, triggers: Seq<Trigger>, results: Seq<RunResult>|
                {
                    &&& #[trigger] mid.begun(*old(self), trigs_of(triggers))
                    &&& results.len() == triggers.len()
                    &&& forall|i: int|
                        #![trigger triggers[i]]
                        0 <= i < triggers.len() && old(self).store.is_alive(triggers[i].subscriber)
                            ==> exists|c: &mut Ctx<'_>|
                            {
                                &&& #[trigger] old(
                                    self,
                                ).bodies@[triggers[i].calc.0 as int].ensures(
                                    (c, &triggers[i].input),
                                    (),
                                )
                                &&& fresh_ctx(
                                    *c,
                                    old(self).store,
                                    old(self).infos@[triggers[i].calc.0 as int],
                                    triggers[i],
                                )
                                &&& results[i].writes@ == final(c).writes_made()
                                &&& results[i].spawns@ == final(c).spawns_made()
                                &&& results[i].violations@ == final(c).violations_made()
                            }
                    &&& forall|i: int|
                        0 <= i < triggers.len() && !old(self).store.is_alive(
                            triggers[i].subscriber,
                        ) ==> (#[trigger] results[i]).writes@.len() == 0
                            && results[i].spawns@.len() == 0 && results[i].violations@.len() == 0
                    &&& #[trigger] final(self).finished(
                        mid,
                        tick_log(old(self).clock, old(self).store, (old(self).frame + 1) as u64),
                        triggers,
                        results,
                        r,
                    )
                },
    {
        let ghost before = *self;
        let (triggers, clock_writes) = self.begin_frame();
        let ghost mid = *self;
        proof {
            lemma_tick_cells(before.clock, before.store, mid.frame);
            lemma_runnable(*self, triggers@);
        }
        let results = run_all(&self.store, &self.infos, &self.bodies, &triggers);
        let ghost rs = results@;
        let r = self.finish_frame(&clock_writes, &triggers, results);
        proof {
            assert(mid.begun(before, trigs_of(triggers@)));
            assert(self.finished(
                mid,
                tick_log(before.clock, before.store, (before.frame + 1) as u64),
                triggers@,
                rs,
                r,
            ));
        }
        r
    }
}

proof fn lemma_runnable<F: for<'a, 'b, 'c> Fn(&'a mut Ctx<'b>, &'c Input)>(
    rt: Runtime<F>,
    triggers: Seq<Trigger>,
)
    requires
        rt.wf(),
        rt.bodies_callable(),
        trigs_ok(trigs_of(triggers), rt.infos@),
    ensures
        runnable(rt.infos@, rt.bodies@, triggers),
{
    assert forall|i: int| 0 <= i < triggers.len() implies (#[trigger] triggers[i]).calc.0
        < rt.infos@.len() by {
        assert(trig_ok(trigs_of(triggers)[i], rt.infos@));
        assert(trigs_of(triggers)[i] == triggers[i]@);
    }
}

impl<F: for<'a, 'b, 'c> Fn(&'a mut Ctx<'b>, &'c Input) + Sync> Runtime<F> {
    /// Advances one frame, running the triggers in parallel. The results are merged in the
    /// order of the triggers.
    pub fn step_parallel(&mut self) -> (r: FrameReport)
        requires
            old(self).wf(),
            old(self).frame < i64::MAX,
            old(self).bodies_callable(),
        ensures
            final(self).wf(),
            final(self).frame == old(self).frame + 1,
            final(self).same_rules(*old(self)),
            exists|mid: Runtime<F>, triggers: Seq<Trigger>, results: Seq<RunResult>|
                {
                    &&& #[trigger] mid.begun(*old(self), trigs_of(triggers))
                    &&& results.len() == triggers.len()
                    &&& forall|i: int|
                        #![trigger triggers[i]]
                        0 <= i < triggers.len() && old(self).store.is_alive(triggers[i].subscriber)
                            ==> exists|c: &mut Ctx<'_>|
                            {
                                &&& #[trigger] old(
                                    self,
                                ).bodies@[triggers[i].calc.0 as int].ensures(
                                    (c, &triggers[i].input),
                                    (),
                                )
                                &&& fresh_ctx(
                                    *c,
                                    old(self).store,
                                    old(self).infos@[triggers[i].calc.0 as int],
                                    triggers[i],
                                )
                                &&& results[i].writes@ == final(c).writes_made()
                                &&& results[i].spawns@ == final(c).spawns_made()
                                &&& results[i].violations@ == final(c).violations_made()
                            }
                    &&& forall|i: int|
                        0 <= i < triggers.len() && !old(self).store.is_alive(
                            triggers[i].subscriber,
                        ) ==> (#[trigger] results[i]).writes@.len() == 0
                            && results[i].spawns@.len() == 0 && results[i].violations@.len() == 0
                    &&& #[trigger] final(self).finished(
                        mid,
                        tick_log(old(self).clock, old(self).store, (old(self).frame + 1) as u64),
                        triggers,
                        results,
                        r,
                    )
                },
    {
        let ghost before = *self;
        let (triggers, clock_writes) = self.begin_frame();
        let ghost mid = *self;
        proof {
            lemma_tick_cells(before.clock, before.store, mid.frame);
            lemma_runnable(*self, triggers@);
        }
        let results = run_all_parallel(&self.store, &self.infos, &self.bodies, &triggers);
        let ghost rs = results@;
        let r = self.finish_frame(&clock_writes, &triggers, results);
        proof {
            assert(mid.begun(before, trigs_of(triggers@)));
            assert(self.finished(
                mid,
                tick_log(before.clock, before.store, (before.frame + 1) as u64),
                triggers@,
                rs,
                r,
            ));
        }
        r
    }
}

}
