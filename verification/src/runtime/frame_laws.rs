//! What holds of a frame as a whole.
use crate::runtime::clock::tick_log;
use crate::calculation::CalcId;
use crate::calculation::InputModel;
use crate::calculation::SpawnReq;
use crate::entity::FIELD_ALIVE;
use crate::entity::FieldId;
use crate::entity::InstanceId;
use crate::predicate::expr_value;
use crate::predicate::holds;
use crate::predicate::Cond;
use crate::predicate::Dir;
use crate::predicate::Env;
use crate::predicate::Expr;
use crate::runtime::bindings::runs_always;
use crate::runtime::commit::bereft;
use crate::runtime::commit::births;
use crate::runtime::commit::births_log;
use crate::runtime::commit::committed;
use crate::runtime::commit::deaths_in;
use crate::runtime::commit::died;
use crate::runtime::commit::log_applied;
use crate::runtime::commit::nulls_ok;
use crate::runtime::commit::written;
use crate::runtime::engine::Runtime;
use crate::runtime::eval::env_of;
use crate::runtime::eval::projection;
use crate::runtime::exec::RunResult;
use crate::runtime::frame::clock_applied;
use crate::runtime::frame::clock_cells;
use crate::runtime::frame::lemma_not_clock;
use crate::runtime::frame::trigger_counts;
use crate::runtime::frame::FrameReport;
use crate::runtime::indexes::cell_key;
use crate::runtime::lifecycle::lemma_schema_refs;
use crate::runtime::lifecycle::log_of;
use crate::runtime::lifecycle::refers;
use crate::runtime::lifecycle::WriteModel;
use crate::runtime::merge::allowed;
use crate::runtime::merge::cell_at;
use crate::runtime::merge::lemma_cell_found;
use crate::runtime::merge::merge_all;
use crate::runtime::merge::merge_run;
use crate::runtime::merge::merge_write;
use crate::runtime::merge::merged_ok;
use crate::runtime::merge::spawns_upto;
use crate::runtime::merge::Merged;
use crate::runtime::profile::GroupModel;
use crate::runtime::profile::Profile;
use crate::runtime::refs::is_ref;
use crate::runtime::route::trig_ok;
use crate::runtime::route::trigs_of;
use crate::runtime::route::trigs_ok;
use crate::runtime::route::Trig;
use crate::runtime::route::Trigger;
use crate::runtime::routing::frame_triggers;
use crate::runtime::schedule::by_calc;
use crate::runtime::schedule::ecs_for;
use crate::runtime::schedule::ecs_trigs;
use crate::runtime::schedule::of_calc;
use crate::runtime::schedule::plan;
use crate::runtime::store::law_instances_are_the_alive_ones;
use crate::runtime::store::Store;
use crate::runtime::CalcInfo;
use crate::value::Val;
use crate::value::Value;
use vstd::prelude::*;

verus! {

/// Every write is an event: what a frame commits, changed or not, is what the next frame
/// routes, in the same order and before anything else.
pub proof fn law_every_write_is_an_event(
    after: Store,
    before: Store,
    log: Seq<WriteModel>,
    reqs: Seq<SpawnReq>,
    born: Seq<Option<InstanceId>>,
    next: Seq<WriteModel>,
    k: int,
)
    requires
        committed(after, before, log, reqs, born, next),
        0 <= k < log.len(),
    ensures
        k < next.len(),
        next[k] == log[k],
{
}

/// No reference of an instance that is alive leads to one that ended in the frame.
pub proof fn law_no_reference_to_the_dead(
    after: Store,
    before: Store,
    log: Seq<WriteModel>,
    reqs: Seq<SpawnReq>,
    born: Seq<Option<InstanceId>>,
    next: Seq<WriteModel>,
    i: InstanceId,
    f: FieldId,
    d: int,
)
    requires
        committed(after, before, log, reqs, born, next),
        0 <= d < deaths_in(log, log.len() as int).len(),
        after.is_alive(i),
        is_ref(after, i.ty, f),
    ensures
        after.value(i, f) != Val::Ref(deaths_in(log, log.len() as int)[d]),
{
    let deaths = deaths_in(log, log.len() as int);
    let n = deaths.len() as int;
    let (a, b, nulls) = choose|a: Store, b: Store, nulls: Seq<WriteModel>|
        {
            &&& #[trigger] log_applied(a, before, log)
            &&& #[trigger] births(b, a, reqs, born)
            &&& born.len() == reqs.len()
            &&& died(after, b, deaths, deaths.len() as int)
            &&& #[trigger] nulls_ok(b, deaths, deaths.len() as int, nulls)
            &&& next == log + births_log(a, reqs, born, reqs.len() as int) + nulls
        };
    assert(deaths.take(n) =~= deaths);
    if deaths.contains(i) {
        let x = choose|x: int| 0 <= x < deaths.len() && deaths[x] == i;
        assert(!after.has(deaths[x]));
    }
    let alive = FieldId(FIELD_ALIVE);
    assert(after.value(i, alive) == (if bereft(b, deaths, n, i, alive) {
        Val::Null
    } else {
        b.value(i, alive)
    }));
    if after.value(i, f) == Val::Ref(deaths[d]) {
        assert(after.value(i, f) == b.value(i, f));
        assert(after.types@[i.ty.0 as int].same_schema(b.types@[i.ty.0 as int]));
        assert(refers(b, i, f, deaths[d]));
    }
}

/// A crossing is an edge: the write after one that crossed a threshold does not cross it
/// again in the same direction.
pub proof fn law_crossing_is_an_edge(t: Expr, dir: Dir, first: Env, second: Env)
    requires
        holds(Cond::Crossed(t, dir), first),
        second.old == first.new,
        expr_value(t, second) == expr_value(t, first),
    ensures
        !holds(Cond::Crossed(t, dir), second),
{
}

/// To become a value is an edge: the next write does not make it become that value.
pub proof fn law_becoming_is_an_edge(v: Value, first: Env, second: Env)
    requires
        holds(Cond::Became(v), first),
        second.old == first.new,
    ensures
        !holds(Cond::Became(v), second),
{
}

proof fn lemma_ecs_trigs(
    store: Store,
    infos: Seq<CalcInfo>,
    ecs: Seq<CalcId>,
    writer: InstanceId,
    frame: u64,
    n: int,
    k: int,
    i: InstanceId,
)
    requires
        0 <= k < n <= ecs.len(),
        store.instances(infos[ecs[k].0 as int].ty).contains(i),
    ensures
        ecs_trigs(store, infos, ecs, writer, frame, n).contains(
            Trig {
                calc: ecs[k],
                sub: i,
                input: InputModel::Each(
                    projection(
                        infos[ecs[k].0 as int].pred.delivery->Each_0@,
                        writer,
                        env_of(store, i, Val::Int(frame as i64), Val::Int((frame - 1) as i64)),
                    ),
                ),
            },
        ),
    decreases n,
{
    let before = ecs_trigs(store, infos, ecs, writer, frame, n - 1);
    let info = infos[ecs[n - 1].0 as int];
    let subs = store.instances(info.ty);
    let mine = ecs_for(store, info, ecs[n - 1], writer, frame, subs, subs.len() as int);
    let all = ecs_trigs(store, infos, ecs, writer, frame, n);
    let t = Trig {
        calc: ecs[k],
        sub: i,
        input: InputModel::Each(
            projection(
                infos[ecs[k].0 as int].pred.delivery->Each_0@,
                writer,
                env_of(store, i, Val::Int(frame as i64), Val::Int((frame - 1) as i64)),
            ),
        ),
    };
    if k < n - 1 {
        lemma_ecs_trigs(store, infos, ecs, writer, frame, n - 1, k, i);
        let x = choose|x: int| 0 <= x < before.len() && before[x] == t;
        assert(all[x] == t);
    } else {
        let x = choose|x: int| 0 <= x < subs.len() && subs[x] == i;
        assert(mine[x] == t);
        assert(all[before.len() + x] == t);
    }
}

/// A calculation that watches the frame number with no condition, hit by hit, runs in every
/// frame for every instance of its type that is alive.
pub proof fn law_every_frame_runs_everyone<F>(rt: Runtime<F>, c: int, i: InstanceId)
    requires
        rt.wf(),
        rt.frame < i64::MAX,
        0 <= c < rt.infos@.len(),
        runs_always(rt.infos@[c], rt.clock.ty, rt.clock.f_frame),
        i.ty == rt.infos@[c].ty,
        rt.store.is_alive(i),
    ensures
        exists|t: Trig| #[trigger]
            rt.next_trigs().contains(t) && t.calc.0 == c && t.sub == i,
{
    let ecs = rt.ecs_calcs@;
    let frame = (rt.frame + 1) as u64;
    let info = rt.infos@[c];
    assert(ecs.contains(CalcId(c as u32)));
    let x = choose|x: int| 0 <= x < ecs.len() && ecs[x] == CalcId(c as u32);
    law_instances_are_the_alive_ones(rt.store, info.ty);
    lemma_ecs_trigs(
        rt.store,
        rt.infos@,
        ecs,
        rt.clock.inst,
        frame,
        ecs.len() as int,
        x,
        i,
    );
    let t = Trig {
        calc: ecs[x],
        sub: i,
        input: InputModel::Each(
            projection(
                info.pred.delivery->Each_0@,
                rt.clock.inst,
                env_of(rt.store, i, Val::Int(frame as i64), Val::Int((frame - 1) as i64)),
            ),
        ),
    };
    let a = frame_triggers(rt.next_routing(), rt.infos@, rt.determinism);
    let b = ecs_trigs(
        rt.store,
        rt.infos@,
        ecs,
        rt.clock.inst,
        frame,
        ecs.len() as int,
    );
    let k = choose|k: int| 0 <= k < b.len() && b[k] == t;
    assert(rt.next_trigs()[a.len() + k] == t);
    assert(rt.next_trigs().contains(t));
    assert(t.calc.0 == c);
}

/// The last value that the first `n` writes of a run leave in a field, of those it may make.
pub open spec fn last_allowed(
    declared: Seq<FieldId>,
    writes: Seq<(FieldId, Value)>,
    f: FieldId,
    n: int,
) -> Option<Val>
    decreases n,
{
    if n <= 0 {
        None
    } else if writes[n - 1].0 == f && allowed(declared, f, writes[n - 1].1@) {
        Some(writes[n - 1].1@)
    } else {
        last_allowed(declared, writes, f, n - 1)
    }
}

/// The last value that the first `n` runs leave in a cell.
pub open spec fn last_in_cell(
    infos: Seq<CalcInfo>,
    triggers: Seq<Trigger>,
    results: Seq<RunResult>,
    inst: InstanceId,
    f: FieldId,
    n: int,
) -> Option<Val>
    decreases n,
{
    if n <= 0 {
        None
    } else {
        let t = triggers[n - 1];
        let mine = if t.subscriber == inst {
            last_allowed(
                infos[t.calc.0 as int].declared_writes@,
                results[n - 1].writes@,
                f,
                results[n - 1].writes@.len() as int,
            )
        } else {
            None
        };
        match mine {
            Some(v) => Some(v),
            None => last_in_cell(infos, triggers, results, inst, f, n - 1),
        }
    }
}

/// What the log makes of a cell.
pub open spec fn in_log(log: Seq<WriteModel>, inst: InstanceId, f: FieldId) -> Option<Val> {
    let k = cell_at(log, inst, f);
    if 0 <= k < log.len() {
        Some(log[k].new)
    } else {
        None
    }
}

proof fn lemma_merge_write(
    store: Store,
    calc: CalcId,
    declared: Seq<FieldId>,
    inst: InstanceId,
    m: Merged,
    field: FieldId,
    v: Val,
    i: InstanceId,
    f: FieldId,
)
    ensures
        in_log(merge_write(store, calc, declared, inst, m, field, v).log, i, f) == (if i == inst
            && f == field && allowed(declared, field, v) {
            Some(v)
        } else {
            in_log(m.log, i, f)
        }),
{
    let after = merge_write(store, calc, declared, inst, m, field, v).log;
    if allowed(declared, field, v) {
        lemma_cell_found(m.log, inst, field);
        lemma_cell_found(m.log, i, f);
        lemma_cell_found(after, i, f);
        let c = cell_at(m.log, inst, field);
        let x = cell_at(m.log, i, f);
        let y = cell_at(after, i, f);
        if x < m.log.len() {
            assert(after[x].inst == i && after[x].field == f);
            if y < x {
                assert(after[y].inst == m.log[y].inst && after[y].field == m.log[y].field);
            }
            if x == c {
                assert(i == inst && f == field);
            } else if i == inst && f == field {
                if c < m.log.len() {
                    if x < c {
                        assert(!(m.log[x].inst == inst && m.log[x].field == field));
                    } else {
                        assert(!(m.log[c].inst == i && m.log[c].field == f));
                    }
                } else {
                    assert(!(m.log[x].inst == inst && m.log[x].field == field));
                }
            }
        } else if y < after.len() {
            if y < m.log.len() {
                assert(after[y].inst == m.log[y].inst && after[y].field == m.log[y].field);
            }
        } else if i == inst && f == field {
            assert(after[m.log.len() as int].inst == i);
        }
    }
}

proof fn lemma_merge_run(
    store: Store,
    calc: CalcId,
    declared: Seq<FieldId>,
    inst: InstanceId,
    m: Merged,
    writes: Seq<(FieldId, Value)>,
    n: int,
    i: InstanceId,
    f: FieldId,
)
    requires
        0 <= n <= writes.len(),
    ensures
        in_log(merge_run(store, calc, declared, inst, m, writes, n).log, i, f) == (match (if i
            == inst {
            last_allowed(declared, writes, f, n)
        } else {
            None
        }) {
            Some(v) => Some(v),
            None => in_log(m.log, i, f),
        }),
    decreases n,
{
    if n > 0 {
        lemma_merge_run(store, calc, declared, inst, m, writes, n - 1, i, f);
        lemma_merge_write(
            store,
            calc,
            declared,
            inst,
            merge_run(store, calc, declared, inst, m, writes, n - 1),
            writes[n - 1].0,
            writes[n - 1].1@,
            i,
            f,
        );
    }
}

/// The last write wins: what the runs of a frame make of a cell is the last value that one
/// of the cell's own runs leaves there within its declarations. Runs of other instances, and
/// those that do not declare the field, make no difference to it, in whatever order they
/// come.
pub proof fn law_last_write_wins(
    store: Store,
    infos: Seq<CalcInfo>,
    triggers: Seq<Trigger>,
    results: Seq<RunResult>,
    n: int,
    inst: InstanceId,
    f: FieldId,
)
    requires
        0 <= n <= triggers.len(),
        results.len() == triggers.len(),
    ensures
        in_log(merge_all(store, infos, triggers, results, n).log, inst, f) == last_in_cell(
            infos,
            triggers,
            results,
            inst,
            f,
            n,
        ),
    decreases n,
{
    if n > 0 {
        law_last_write_wins(store, infos, triggers, results, n - 1, inst, f);
        let m = merge_all(store, infos, triggers, results, n - 1);
        let t = triggers[n - 1];
        let r = results[n - 1];
        let noted = Merged {
            notes: m.notes + crate::runtime::merge::broken(t.calc, t.subscriber, r.violations@),
            ..m
        };
        lemma_merge_run(
            store,
            t.calc,
            infos[t.calc.0 as int].declared_writes@,
            t.subscriber,
            noted,
            r.writes@,
            r.writes@.len() as int,
            inst,
            f,
        );
    }
}

/// What a frame writes, the owner of the field wrote: every merged write, other than the end
/// of an instance, was made by a run of the calculation that owns the field, for the
/// instance that is written.
pub proof fn law_the_owner_wrote<F>(
    rt: Runtime<F>,
    triggers: Seq<Trigger>,
    log: Seq<WriteModel>,
    k: int,
)
    requires
        rt.wf(),
        trigs_ok(trigs_of(triggers), rt.infos@),
        merged_ok(rt.store, rt.infos@, triggers, log),
        0 <= k < log.len(),
        log[k].field.0 != FIELD_ALIVE,
    ensures
        rt.owners@.contains_key(cell_key(log[k].inst.ty, log[k].field)),
        exists|t: int|
            0 <= t < triggers.len() && (#[trigger] triggers[t]).subscriber == log[k].inst
                && triggers[t].calc == rt.owners@[cell_key(log[k].inst.ty, log[k].field)],
{
    let t = choose|t: int|
        0 <= t < triggers.len() && (#[trigger] triggers[t]).subscriber == log[k].inst && allowed(
            rt.infos@[triggers[t].calc.0 as int].declared_writes@,
            log[k].field,
            log[k].new,
        ) && rt.store.is_alive(log[k].inst);
    assert(trigs_of(triggers)[t] == triggers[t]@);
    assert(trig_ok(trigs_of(triggers)[t], rt.infos@));
    let c = triggers[t].calc.0 as int;
    let ws = rt.infos@[c].declared_writes@;
    let w = choose|w: int| 0 <= w < ws.len() && ws[w] == log[k].field;
    assert(rt.infos@[c].declared_writes@[w] == log[k].field);
    assert(triggers[t].subscriber == log[k].inst);
}

/// The writes of the runs of one calculation for one instance, run by run, among the first
/// `n` runs.
pub open spec fn runs_of(
    triggers: Seq<Trigger>,
    results: Seq<RunResult>,
    c: CalcId,
    inst: InstanceId,
    n: int,
) -> Seq<Seq<(FieldId, Value)>>
    decreases n,
{
    if n <= 0 {
        Seq::empty()
    } else if triggers[n - 1].calc == c && triggers[n - 1].subscriber == inst {
        runs_of(triggers, results, c, inst, n - 1).push(results[n - 1].writes@)
    } else {
        runs_of(triggers, results, c, inst, n - 1)
    }
}

/// The last value that some runs of a calculation leave in a field.
spec fn last_of_runs(
    declared: Seq<FieldId>,
    runs: Seq<Seq<(FieldId, Value)>>,
    f: FieldId,
) -> Option<Val>
    decreases runs.len(),
{
    if runs.len() == 0 {
        None
    } else {
        match last_allowed(declared, runs.last(), f, runs.last().len() as int) {
            Some(v) => Some(v),
            None => last_of_runs(declared, runs.drop_last(), f),
        }
    }
}

proof fn lemma_last_allowed(
    declared: Seq<FieldId>,
    writes: Seq<(FieldId, Value)>,
    f: FieldId,
    n: int,
)
    ensures
        last_allowed(declared, writes, f, n) is Some ==> allowed(
            declared,
            f,
            last_allowed(declared, writes, f, n)->0,
        ),
    decreases n,
{
    if n > 0 {
        lemma_last_allowed(declared, writes, f, n - 1);
    }
}

/// What a cell comes to is the doing of its owner's runs alone.
proof fn lemma_cell_of_owner(
    infos: Seq<CalcInfo>,
    triggers: Seq<Trigger>,
    results: Seq<RunResult>,
    c: CalcId,
    inst: InstanceId,
    f: FieldId,
    n: int,
)
    requires
        0 <= n <= triggers.len(),
        results.len() == triggers.len(),
        f.0 != FIELD_ALIVE,
        forall|t: int|
            0 <= t < n && (#[trigger] triggers[t]).subscriber == inst
                && infos[triggers[t].calc.0 as int].declared_writes@.contains(f)
                ==> triggers[t].calc == c,
    ensures
        last_in_cell(infos, triggers, results, inst, f, n) == last_of_runs(
            infos[c.0 as int].declared_writes@,
            runs_of(triggers, results, c, inst, n),
            f,
        ),
    decreases n,
{
    if n > 0 {
        lemma_cell_of_owner(infos, triggers, results, c, inst, f, n - 1);
        let t = triggers[n - 1];
        let ws = results[n - 1].writes@;
        lemma_last_allowed(infos[t.calc.0 as int].declared_writes@, ws, f, ws.len() as int);
        let before = runs_of(triggers, results, c, inst, n - 1);
        if t.calc == c && t.subscriber == inst {
            let runs = runs_of(triggers, results, c, inst, n);
            assert(runs.last() == ws);
            assert(runs.drop_last() =~= before);
        }
    }
}

/// Whether an instance ends is a matter of whether one of its runs ended it.
proof fn lemma_end_in_runs(
    infos: Seq<CalcInfo>,
    triggers: Seq<Trigger>,
    results: Seq<RunResult>,
    inst: InstanceId,
    n: int,
)
    requires
        0 <= n <= triggers.len(),
        results.len() == triggers.len(),
    ensures
        ({
            let end = last_in_cell(infos, triggers, results, inst, FieldId(FIELD_ALIVE), n);
            &&& end is Some ==> end->0 == Val::Bool(false)
            &&& end is Some <==> exists|c: CalcId| #[trigger]
                last_of_runs(
                    infos[c.0 as int].declared_writes@,
                    runs_of(triggers, results, c, inst, n),
                    FieldId(FIELD_ALIVE),
                ) is Some
        }),
    decreases n,
{
    let f = FieldId(FIELD_ALIVE);
    if n > 0 {
        lemma_end_in_runs(infos, triggers, results, inst, n - 1);
        let t = triggers[n - 1];
        let ws = results[n - 1].writes@;
        lemma_last_allowed(infos[t.calc.0 as int].declared_writes@, ws, f, ws.len() as int);
        assert forall|c: CalcId| #![trigger runs_of(triggers, results, c, inst, n)]
            (t.calc == c && t.subscriber == inst) implies runs_of(
            triggers,
            results,
            c,
            inst,
            n,
        ).drop_last() == runs_of(triggers, results, c, inst, n - 1) by {
            assert(runs_of(triggers, results, c, inst, n).drop_last() =~= runs_of(
                triggers,
                results,
                c,
                inst,
                n - 1,
            ));
        }
        let before = last_in_cell(infos, triggers, results, inst, f, n - 1);
        let end = last_in_cell(infos, triggers, results, inst, f, n);
        let d = infos[t.calc.0 as int].declared_writes@;
        if before is Some {
            let c = choose|c: CalcId| #[trigger]
                last_of_runs(
                    infos[c.0 as int].declared_writes@,
                    runs_of(triggers, results, c, inst, n - 1),
                    f,
                ) is Some;
            assert(last_of_runs(
                infos[c.0 as int].declared_writes@,
                runs_of(triggers, results, c, inst, n),
                f,
            ) is Some);
        } else if end is Some {
            assert(last_of_runs(d, runs_of(triggers, results, t.calc, inst, n), f) is Some);
        }
        if exists|c: CalcId| #[trigger]
            last_of_runs(
                infos[c.0 as int].declared_writes@,
                runs_of(triggers, results, c, inst, n),
                f,
            ) is Some {
            let c = choose|c: CalcId| #[trigger]
                last_of_runs(
                    infos[c.0 as int].declared_writes@,
                    runs_of(triggers, results, c, inst, n),
                    f,
                ) is Some;
            if !(t.calc == c && t.subscriber == inst) {
                assert(last_of_runs(
                    infos[c.0 as int].declared_writes@,
                    runs_of(triggers, results, c, inst, n - 1),
                    f,
                ) is Some);
            } else if last_allowed(d, ws, f, ws.len() as int) is None {
                assert(last_of_runs(d, runs_of(triggers, results, c, inst, n - 1), f) is Some);
            }
        }
    } else {
        assert forall|c: CalcId| #[trigger]
            last_of_runs(
                infos[c.0 as int].declared_writes@,
                runs_of(triggers, results, c, inst, n),
                f,
            ) is None by {}
    }
}

/// Runs may be taken in any order: where two orders agree on the runs of each calculation
/// for each instance, the merged writes give every cell the same value.
pub proof fn law_runs_may_be_reordered<F>(
    rt: Runtime<F>,
    triggers: Seq<Trigger>,
    results: Seq<RunResult>,
    others: Seq<Trigger>,
    other_results: Seq<RunResult>,
    inst: InstanceId,
    f: FieldId,
)
    requires
        rt.wf(),
        trigs_ok(trigs_of(triggers), rt.infos@),
        trigs_ok(trigs_of(others), rt.infos@),
        results.len() == triggers.len(),
        other_results.len() == others.len(),
        forall|c: CalcId, i: InstanceId| #[trigger]
            runs_of(triggers, results, c, i, triggers.len() as int) == runs_of(
                others,
                other_results,
                c,
                i,
                others.len() as int,
            ),
    ensures
        in_log(
            merge_all(rt.store, rt.infos@, triggers, results, triggers.len() as int).log,
            inst,
            f,
        ) == in_log(
            merge_all(rt.store, rt.infos@, others, other_results, others.len() as int).log,
            inst,
            f,
        ),
{
    let n = triggers.len() as int;
    let m = others.len() as int;
    law_last_write_wins(rt.store, rt.infos@, triggers, results, n, inst, f);
    law_last_write_wins(rt.store, rt.infos@, others, other_results, m, inst, f);
    if f.0 == FIELD_ALIVE {
        assert(f == FieldId(FIELD_ALIVE));
        lemma_end_in_runs(rt.infos@, triggers, results, inst, n);
        lemma_end_in_runs(rt.infos@, others, other_results, inst, m);
        assert forall|c: CalcId|
            runs_of(triggers, results, c, inst, n) == #[trigger] runs_of(
                others,
                other_results,
                c,
                inst,
                m,
            ) by {}
    } else {
        let k = cell_key(inst.ty, f);
        let owner = if rt.owners@.contains_key(k) {
            rt.owners@[k]
        } else {
            CalcId(0)
        };
        lemma_owner_declares(rt, triggers, inst, f, owner);
        lemma_owner_declares(rt, others, inst, f, owner);
        lemma_cell_of_owner(rt.infos@, triggers, results, owner, inst, f, n);
        lemma_cell_of_owner(rt.infos@, others, other_results, owner, inst, f, m);
    }
}

/// A run that declares a field is one of the field's owner.
proof fn lemma_owner_declares<F>(
    rt: Runtime<F>,
    triggers: Seq<Trigger>,
    inst: InstanceId,
    f: FieldId,
    owner: CalcId,
)
    requires
        rt.wf(),
        trigs_ok(trigs_of(triggers), rt.infos@),
        f.0 != FIELD_ALIVE,
        owner == (if rt.owners@.contains_key(cell_key(inst.ty, f)) {
            rt.owners@[cell_key(inst.ty, f)]
        } else {
            CalcId(0)
        }),
    ensures
        forall|t: int|
            0 <= t < triggers.len() && (#[trigger] triggers[t]).subscriber == inst
                && rt.infos@[triggers[t].calc.0 as int].declared_writes@.contains(f)
                ==> triggers[t].calc == owner,
{
    assert forall|t: int|
        0 <= t < triggers.len() && (#[trigger] triggers[t]).subscriber == inst
            && rt.infos@[triggers[t].calc.0 as int].declared_writes@.contains(f)
        implies triggers[t].calc == owner by {
        assert(trigs_of(triggers)[t] == triggers[t]@);
        assert(trig_ok(trigs_of(triggers)[t], rt.infos@));
        let c = triggers[t].calc.0 as int;
        let ws = rt.infos@[c].declared_writes@;
        let w = choose|w: int| 0 <= w < ws.len() && ws[w] == f;
        assert(rt.infos@[c].declared_writes@[w] == f);
    }
}

/// The sum of the sizes of the groups of a calculation in a plan.
pub open spec fn planned(gs: Seq<GroupModel>, c: CalcId) -> nat
    decreases gs.len(),
{
    if gs.len() == 0 {
        0
    } else {
        planned(gs.drop_last(), c) + (if gs.last().calc == c {
            gs.last().count
        } else {
            0
        })
    }
}

/// The number of triggers of a calculation.
spec fn triggered(ts: Seq<Trig>, c: CalcId) -> nat {
    of_calc(ts, c.0 as int).len()
}

/// A count that stops at its maximum.
pub open spec fn capped_count(n: int) -> u64 {
    if n < u64::MAX {
        n as u64
    } else {
        u64::MAX
    }
}

proof fn lemma_planned(ts: Seq<Trig>, infos: Seq<CalcInfo>, profile: Profile, c: CalcId)
    ensures
        planned(plan(ts, infos, profile), c) == triggered(ts, c),
    decreases ts.len(),
{
    if ts.len() > 0 {
        let before = plan(ts.drop_last(), infos, profile);
        let after = plan(ts, infos, profile);
        lemma_planned(ts.drop_last(), infos, profile, c);
        assert(after.drop_last() =~= (if before.len() > 0 && before.last().calc == ts.last().calc {
            before.drop_last()
        } else {
            before
        }));
    }
}

proof fn lemma_of_calc_concat(a: Seq<Trig>, b: Seq<Trig>, c: int)
    ensures
        of_calc(a + b, c) == of_calc(a, c) + of_calc(b, c),
    decreases b.len(),
{
    if b.len() == 0 {
        assert(a + b =~= a);
        assert(of_calc(a, c) + of_calc(b, c) =~= of_calc(a, c));
    } else {
        lemma_of_calc_concat(a, b.drop_last(), c);
        assert((a + b).drop_last() =~= a + b.drop_last());
        assert(of_calc(a + b, c) =~= of_calc(a, c) + of_calc(b, c));
    }
}

proof fn lemma_of_calc_again(ts: Seq<Trig>, d: int, c: int)
    ensures
        of_calc(of_calc(ts, d), c) == (if c == d {
            of_calc(ts, c)
        } else {
            Seq::empty()
        }),
    decreases ts.len(),
{
    if ts.len() > 0 {
        lemma_of_calc_again(ts.drop_last(), d, c);
        let r = of_calc(ts.drop_last(), d);
        if ts.last().calc.0 == d {
            assert(r.push(ts.last()).drop_last() =~= r);
        }
    }
}

/// Ordering by calculation keeps the triggers of each.
proof fn lemma_by_calc_counts(ts: Seq<Trig>, n: int, c: int)
    requires
        0 <= c,
    ensures
        of_calc(by_calc(ts, n), c) == (if c < n {
            of_calc(ts, c)
        } else {
            Seq::empty()
        }),
    decreases n,
{
    if n > 0 {
        lemma_by_calc_counts(ts, n - 1, c);
        lemma_of_calc_concat(by_calc(ts, n - 1), of_calc(ts, n - 1), c);
        lemma_of_calc_again(ts, n - 1, c);
        assert(Seq::<Trig>::empty() + of_calc(ts, c) =~= of_calc(ts, c));
        assert(of_calc(ts, c) + Seq::<Trig>::empty() =~= of_calc(ts, c));
    }
}

proof fn lemma_trigger_counts(ts: Seq<Trig>, n: int, before: Seq<u64>, c: CalcId)
    requires
        0 <= n <= ts.len(),
        c.0 < before.len(),
        forall|i: int| 0 <= i < ts.len() ==> (#[trigger] ts[i]).calc.0 < before.len(),
    ensures
        trigger_counts(ts, n, before).len() == before.len(),
        trigger_counts(ts, n, before)[c.0 as int] == capped_count(
            before[c.0 as int] + triggered(ts.take(n), c),
        ),
    decreases n,
{
    if n > 0 {
        lemma_trigger_counts(ts, n - 1, before, c);
        assert(ts.take(n).drop_last() =~= ts.take(n - 1));
        assert(ts.take(n).last() == ts[n - 1]);
    } else {
        assert(ts.take(0) =~= Seq::empty());
    }
}

/// The triggers of a calculation are counted: in a frame its count grows by the sizes of its
/// groups in the schedule, up to the largest number. What was never registered counts zero.
pub proof fn law_triggers_are_counted<F>(
    after: Runtime<F>,
    before: Runtime<F>,
    triggers: Seq<Trig>,
    c: CalcId,
)
    requires
        before.wf(),
        after.begun(before, triggers),
    ensures
        c.0 < before.infos@.len() ==> after.profile.triggers_of(c) == capped_count(
            before.profile.triggers_of(c) + planned(after.schedule@, c),
        ),
        c.0 >= before.infos@.len() ==> after.profile.triggers_of(c) == 0 && planned(
            after.schedule@,
            c,
        ) == 0,
{
    let trigs = before.next_trigs();
    let n = trigs.len() as int;
    let counts = before.profile.trigger_counts@;
    assert forall|i: int| 0 <= i < trigs.len() implies (#[trigger] trigs[i]).calc.0
        < counts.len() by {
        assert(trig_ok(trigs[i], before.infos@));
    }
    lemma_planned(triggers, before.infos@, after.profile, c);
    lemma_by_calc_counts(trigs, before.infos@.len() as int, c.0 as int);
    if c.0 < before.infos@.len() {
        lemma_trigger_counts(trigs, n, counts, c);
        assert(trigs.take(n) =~= trigs);
    } else if before.infos@.len() > 0 {
        lemma_trigger_counts(trigs, n, counts, CalcId(0));
    } else if n > 0 {
        assert(trig_ok(trigs[0], before.infos@));
    }
}

/// A log that has each cell once leaves in a cell what it says of it.
proof fn lemma_written_in_log(
    log: Seq<WriteModel>,
    n: int,
    i: InstanceId,
    f: FieldId,
    before: Val,
)
    requires
        0 <= n <= log.len(),
        forall|x: int, y: int|
            0 <= x < y < log.len() ==> !((#[trigger] log[x]).inst == (#[trigger] log[y]).inst
                && log[x].field == log[y].field),
    ensures
        written(log, n, i, f, before) == (if cell_at(log, i, f) < n {
            log[cell_at(log, i, f)].new
        } else {
            before
        }),
    decreases n,
{
    lemma_cell_found(log, i, f);
    if n > 0 {
        lemma_written_in_log(log, n - 1, i, f, before);
        let k = cell_at(log, i, f);
        if log[n - 1].inst == i && log[n - 1].field == f {
            if k < n - 1 {
                assert(!(log[k].inst == log[n - 1].inst && log[k].field == log[n - 1].field));
            }
        }
    }
}

/// What a frame leaves in a cell of an instance that lives on is the last value that its own
/// runs leave there, or what was there before. The clock and references are set apart: the
/// runtime writes the one, and death empties the others.
pub proof fn law_a_frame_leaves_the_last_write<F>(
    after: Runtime<F>,
    before: Runtime<F>,
    clock_log: Seq<WriteModel>,
    triggers: Seq<Trigger>,
    results: Seq<RunResult>,
    report: FrameReport,
    i: InstanceId,
    f: FieldId,
)
    requires
        after.finished(before, clock_log, triggers, results, report),
        results.len() == triggers.len(),
        clock_cells(clock_log, before.clock),
        before.store.has(i),
        i != before.clock.inst,
        !is_ref(before.store, i.ty, f),
        ({
            let log = merge_all(
                before.store,
                before.infos@,
                triggers,
                results,
                triggers.len() as int,
            ).log;
            !deaths_in(log, log.len() as int).contains(i)
        }),
    ensures
        after.store.has(i),
        after.store.value(i, f) == (match last_in_cell(
            before.infos@,
            triggers,
            results,
            i,
            f,
            triggers.len() as int,
        ) {
            Some(v) => v,
            None => before.store.value(i, f),
        }),
{
    let n = triggers.len() as int;
    let log = merge_all(before.store, before.infos@, triggers, results, n).log;
    let reqs = spawns_upto(results, n);
    let born = report.born@;
    let next = log_of(after.pending@);
    let deaths = deaths_in(log, log.len() as int);
    let s = choose|s: Store|
        {
            &&& #[trigger] clock_applied(s, before.store, clock_log)
            &&& committed(after.store, s, log, reqs, born, next)
        };
    let (a, b, nulls) = choose|a: Store, b: Store, nulls: Seq<WriteModel>|
        {
            &&& #[trigger] log_applied(a, s, log)
            &&& #[trigger] births(b, a, reqs, born)
            &&& born.len() == reqs.len()
            &&& died(after.store, b, deaths, deaths.len() as int)
            &&& #[trigger] nulls_ok(b, deaths, deaths.len() as int, nulls)
            &&& next == log + births_log(a, reqs, born, reqs.len() as int) + nulls
        };
    lemma_not_clock(
        clock_log,
        clock_log.len() as int,
        before.clock,
        i,
        f,
        before.store.value(i, f),
    );
    assert(s.value(i, f) == before.store.value(i, f));
    assert(s.has(i) && a.has(i) && b.has(i));
    lemma_cell_found(log, i, f);
    lemma_written_in_log(log, log.len() as int, i, f, s.value(i, f));
    law_last_write_wins(before.store, before.infos@, triggers, results, n, i, f);
    assert(b.value(i, f) == a.value(i, f));
    assert(deaths.take(deaths.len() as int) =~= deaths);
    lemma_schema_refs(s, before.store);
    lemma_schema_refs(a, s);
    lemma_schema_refs(b, a);
    assert(!is_ref(b, i.ty, f));
    assert(!bereft(b, deaths, deaths.len() as int, i, f));
}

/// After a frame the clock shows the number of the frame.
pub proof fn law_the_clock_shows_the_frame<F>(
    after: Runtime<F>,
    before: Runtime<F>,
    frame: u64,
    triggers: Seq<Trigger>,
    results: Seq<RunResult>,
    report: FrameReport,
)
    requires
        frame <= i64::MAX,
        after.finished(
            before,
            tick_log(before.clock, before.store, frame),
            triggers,
            results,
            report,
        ),
        results.len() == triggers.len(),
        before.store.has(before.clock.inst),
        before.clock.f_frame != before.clock.f_alarm,
        before.clock.due(frame).len() == 0,
        !is_ref(before.store, before.clock.inst.ty, before.clock.f_frame),
        last_in_cell(
            before.infos@,
            triggers,
            results,
            before.clock.inst,
            before.clock.f_frame,
            triggers.len() as int,
        ) is None,
        ({
            let log = merge_all(
                before.store,
                before.infos@,
                triggers,
                results,
                triggers.len() as int,
            ).log;
            !deaths_in(log, log.len() as int).contains(before.clock.inst)
        }),
    ensures
        after.store.value(before.clock.inst, before.clock.f_frame) is Int,
        after.store.value(before.clock.inst, before.clock.f_frame)->Int_0 == frame,
{
    let n = triggers.len() as int;
    let clock_log = tick_log(before.clock, before.store, frame);
    let log = merge_all(before.store, before.infos@, triggers, results, n).log;
    let reqs = spawns_upto(results, n);
    let born = report.born@;
    let next = log_of(after.pending@);
    let deaths = deaths_in(log, log.len() as int);
    let i = before.clock.inst;
    let f = before.clock.f_frame;
    let s = choose|s: Store|
        {
            &&& #[trigger] clock_applied(s, before.store, clock_log)
            &&& committed(after.store, s, log, reqs, born, next)
        };
    let (a, b, nulls) = choose|a: Store, b: Store, nulls: Seq<WriteModel>|
        {
            &&& #[trigger] log_applied(a, s, log)
            &&& #[trigger] births(b, a, reqs, born)
            &&& born.len() == reqs.len()
            &&& died(after.store, b, deaths, deaths.len() as int)
            &&& #[trigger] nulls_ok(b, deaths, deaths.len() as int, nulls)
            &&& next == log + births_log(a, reqs, born, reqs.len() as int) + nulls
        };
    assert(clock_log.len() == 1);
    reveal_with_fuel(crate::runtime::commit::written, 2);
    assert(s.value(i, f) == Val::Int(frame as i64));
    assert(s.has(i) && a.has(i) && b.has(i));
    lemma_cell_found(log, i, f);
    lemma_written_in_log(log, log.len() as int, i, f, s.value(i, f));
    law_last_write_wins(before.store, before.infos@, triggers, results, n, i, f);
    assert(b.value(i, f) == a.value(i, f));
    assert(deaths.take(deaths.len() as int) =~= deaths);
    lemma_schema_refs(s, before.store);
    lemma_schema_refs(a, s);
    lemma_schema_refs(b, a);
    assert(!is_ref(b, i.ty, f));
    assert(!bereft(b, deaths, deaths.len() as int, i, f));
}

/// A frame routes what was pending, in order, and then what the clock has to say: the number of
/// the frame, and the alarms that were set for it.
pub proof fn law_what_a_frame_routes<F>(rt: Runtime<F>, k: int)
    requires
        rt.frame < i64::MAX,
    ensures
        rt.next_log().len() == rt.pending@.len() + 1 + rt.clock.due((rt.frame + 1) as u64).len(),
        0 <= k < rt.pending@.len() ==> rt.next_log()[k] == rt.pending@[k]@,
        rt.next_log()[rt.pending@.len() as int].inst == rt.clock.inst,
        rt.next_log()[rt.pending@.len() as int].field == rt.clock.f_frame,
        rt.next_log()[rt.pending@.len() as int].new is Int,
        rt.next_log()[rt.pending@.len() as int].new->Int_0 == rt.frame + 1,
        forall|j: int|
            0 <= j < rt.clock.due((rt.frame + 1) as u64).len() ==> {
                let w = #[trigger] rt.next_log()[rt.pending@.len() + 1 + j];
                &&& w.inst == rt.clock.inst
                &&& w.field == rt.clock.f_alarm
                &&& w.new == rt.clock.due((rt.frame + 1) as u64)[j]
            },
{
    if 0 <= k < rt.pending@.len() {
        assert(log_of(rt.pending@)[k] == rt.pending@[k]@);
    }
}

/// A birth is an event: where a request was met, the next frame routes that the instance is
/// alive and was not.
pub proof fn law_births_are_events(
    after: Store,
    before: Store,
    log: Seq<WriteModel>,
    reqs: Seq<SpawnReq>,
    born: Seq<Option<InstanceId>>,
    next: Seq<WriteModel>,
    k: int,
)
    requires
        committed(after, before, log, reqs, born, next),
        0 <= k < born.len(),
        born[k] is Some,
    ensures
        next.contains(
            WriteModel {
                inst: born[k]->0,
                field: FieldId(FIELD_ALIVE),
                old: Val::Bool(false),
                new: Val::Bool(true),
            },
        ),
{
    let deaths = deaths_in(log, log.len() as int);
    let (a, b, nulls) = choose|a: Store, b: Store, nulls: Seq<WriteModel>|
        {
            &&& #[trigger] log_applied(a, before, log)
            &&& #[trigger] births(b, a, reqs, born)
            &&& born.len() == reqs.len()
            &&& died(after, b, deaths, deaths.len() as int)
            &&& #[trigger] nulls_ok(b, deaths, deaths.len() as int, nulls)
            &&& next == log + births_log(a, reqs, born, reqs.len() as int) + nulls
        };
    let w = WriteModel {
        inst: born[k]->0,
        field: FieldId(FIELD_ALIVE),
        old: Val::Bool(false),
        new: Val::Bool(true),
    };
    let bs = births_log(a, reqs, born, reqs.len() as int);
    lemma_birth_told(a, reqs, born, reqs.len() as int, k, w);
    let x = choose|x: int| 0 <= x < bs.len() && bs[x] == w;
    assert(next[log.len() + x] == w);
}

proof fn lemma_birth_told(
    before: Store,
    reqs: Seq<SpawnReq>,
    born: Seq<Option<InstanceId>>,
    n: int,
    k: int,
    w: WriteModel,
)
    requires
        0 <= k < n <= born.len(),
        n <= reqs.len(),
        born[k] is Some,
        w == (WriteModel {
            inst: born[k]->0,
            field: FieldId(FIELD_ALIVE),
            old: Val::Bool(false),
            new: Val::Bool(true),
        }),
    ensures
        births_log(before, reqs, born, n).contains(w),
    decreases n,
{
    let a = births_log(before, reqs, born, n - 1);
    let b = births_log(before, reqs, born, n);
    if k < n - 1 {
        lemma_birth_told(before, reqs, born, n - 1, k, w);
        let x = choose|x: int| 0 <= x < a.len() && a[x] == w;
        assert(b[x] == w);
    } else {
        assert(b[a.len() as int] == w);
    }
}

}
