//! The order of a frame: its triggers by calculation, and the plan that follows from it.
use crate::calculation::CalcId;
use crate::calculation::Input;
use crate::calculation::InputModel;
use crate::entity::InstanceId;
use crate::kernel::reads_of;
use crate::predicate::Delivery;
use crate::runtime::clock::Clock;
use crate::runtime::commit::reversed;
use crate::runtime::engine::ecs_ok;
use crate::runtime::eval::env_of;
use crate::runtime::eval::project;
use crate::runtime::eval::projection;
use crate::runtime::eval::EvalCtx;
use crate::runtime::profile::copy_reads;
use crate::runtime::profile::GroupModel;
use crate::runtime::profile::Profile;
use crate::runtime::profile::Schedule;
use crate::runtime::profile::ScheduleGroup;
use crate::runtime::route::trig_ok;
use crate::runtime::route::trigs_of;
use crate::runtime::route::trigs_ok;
use crate::runtime::route::Trig;
use crate::runtime::route::Trigger;
use crate::runtime::store::Store;
use crate::runtime::CalcInfo;
use crate::runtime::Residency;
use crate::runtime::Tier;
use crate::value::Val;
use crate::value::Value;
use vstd::prelude::*;

verus! {

/// The triggers of one calculation, in order.
pub open spec fn of_calc(ts: Seq<Trig>, c: int) -> Seq<Trig>
    decreases ts.len(),
{
    if ts.len() == 0 {
        ts
    } else {
        let r = of_calc(ts.drop_last(), c);
        if ts.last().calc.0 == c {
            r.push(ts.last())
        } else {
            r
        }
    }
}

/// The triggers of the first `n` calculations, one calculation after the other.
pub open spec fn by_calc(ts: Seq<Trig>, n: int) -> Seq<Trig>
    decreases n,
{
    if n <= 0 {
        Seq::empty()
    } else {
        by_calc(ts, n - 1) + of_calc(ts, n - 1)
    }
}

proof fn lemma_of_calc(ts: Seq<Trig>, c: int)
    ensures
        forall|i: int|
            0 <= i < of_calc(ts, c).len() ==> (#[trigger] of_calc(ts, c)[i]).calc.0 == c
                && ts.contains(of_calc(ts, c)[i]),
        forall|t: Trig| ts.contains(t) && t.calc.0 == c ==> #[trigger] of_calc(ts, c).contains(t),
    decreases ts.len(),
{
    if ts.len() > 0 {
        let r = ts.drop_last();
        lemma_of_calc(r, c);
        let a = of_calc(r, c);
        let b = of_calc(ts, c);
        assert forall|i: int| 0 <= i < b.len() implies (#[trigger] b[i]).calc.0 == c && ts.contains(
            b[i],
        ) by {
            if i < a.len() {
                assert(b[i] == a[i]);
                assert(r.contains(a[i]));
                let k = choose|k: int| 0 <= k < r.len() && r[k] == a[i];
                assert(ts[k] == a[i]);
            } else {
                assert(ts[ts.len() - 1] == b[i]);
            }
        }
        assert forall|t: Trig| ts.contains(t) && t.calc.0 == c implies #[trigger] b.contains(t) by {
            let k = choose|k: int| 0 <= k < ts.len() && ts[k] == t;
            if k < r.len() {
                assert(r[k] == t);
                assert(r.contains(t));
                assert(a.contains(t));
                let j = choose|j: int| 0 <= j < a.len() && a[j] == t;
                assert(b[j] == t);
            } else {
                assert(b[b.len() - 1] == t);
            }
        }
    }
}

/// Ordering by calculation loses and invents no trigger, and puts the calculations in order.
pub proof fn law_by_calc(ts: Seq<Trig>, n: int)
    requires
        0 <= n,
    ensures
        forall|i: int|
            0 <= i < by_calc(ts, n).len() ==> (#[trigger] by_calc(ts, n)[i]).calc.0 < n
                && ts.contains(by_calc(ts, n)[i]),
        forall|t: Trig| ts.contains(t) && t.calc.0 < n ==> #[trigger] by_calc(ts, n).contains(t),
        forall|i: int, j: int|
            0 <= i < j < by_calc(ts, n).len() ==> (#[trigger] by_calc(ts, n)[i]).calc.0 <= (
            #[trigger] by_calc(ts, n)[j]).calc.0,
    decreases n,
{
    if n > 0 {
        law_by_calc(ts, n - 1);
        lemma_of_calc(ts, n - 1);
        let a = by_calc(ts, n - 1);
        let b = of_calc(ts, n - 1);
        let c = by_calc(ts, n);
        assert forall|i: int| 0 <= i < c.len() implies (#[trigger] c[i]).calc.0 < n && ts.contains(
            c[i],
        ) by {
            if i < a.len() {
                assert(c[i] == a[i]);
            } else {
                assert(c[i] == b[i - a.len()]);
            }
        }
        assert forall|t: Trig| ts.contains(t) && t.calc.0 < n implies #[trigger] c.contains(t) by {
            if t.calc.0 < n - 1 {
                assert(a.contains(t));
                let j = choose|j: int| 0 <= j < a.len() && a[j] == t;
                assert(c[j] == t);
            } else {
                assert(b.contains(t));
                let j = choose|j: int| 0 <= j < b.len() && b[j] == t;
                assert(c[a.len() + j] == t);
            }
        }
        assert forall|i: int, j: int| 0 <= i < j < c.len() implies (#[trigger] c[i]).calc.0 <= (
        #[trigger] c[j]).calc.0 by {
            if j < a.len() {
                assert(c[i] == a[i] && c[j] == a[j]);
            } else if i >= a.len() {
                assert(c[i] == b[i - a.len()] && c[j] == b[j - a.len()]);
            } else {
                assert(c[i] == a[i] && c[j] == b[j - a.len()]);
            }
        }
    }
}

/// Puts the triggers in the order of their calculations. Those of one calculation keep
/// their order.
pub fn sort_by_calc(triggers: Vec<Trigger>, n: usize) -> (r: Vec<Trigger>)
    requires
        forall|i: int| 0 <= i < triggers@.len() ==> (#[trigger] triggers@[i]).calc.0 < n,
    ensures
        trigs_of(r@) == by_calc(trigs_of(triggers@), n as int),
{
    let ghost ts = trigs_of(triggers@);
    let ghost len = triggers@.len();
    let mut buckets: Vec<Vec<Trigger>> = Vec::new();
    while buckets.len() < n
        invariant
            buckets@.len() <= n,
            forall|c: int| 0 <= c < buckets@.len() ==> (#[trigger] buckets@[c])@.len() == 0,
        decreases n - buckets@.len(),
    {
        buckets.push(Vec::new());
    }
    let mut rest = reversed(triggers);
    proof {
        assert(ts.take(0) =~= Seq::empty());
        assert forall|c: int| 0 <= c < n implies trigs_of((#[trigger] buckets@[c])@) == of_calc(
            ts.take(0),
            c,
        ) by {
            assert(trigs_of(buckets@[c]@) =~= of_calc(ts.take(0), c));
        }
    }
    while rest.len() > 0
        invariant
            len == triggers@.len(),
            ts == trigs_of(triggers@),
            rest@.len() <= len,
            rest@ == triggers@.reverse().take(rest@.len() as int),
            forall|i: int| 0 <= i < triggers@.len() ==> (#[trigger] triggers@[i]).calc.0 < n,
            buckets@.len() == n,
            forall|c: int|
                0 <= c < n ==> trigs_of((#[trigger] buckets@[c])@) == of_calc(
                    ts.take(len - rest@.len()),
                    c,
                ),
        decreases rest@.len(),
    {
        let ghost k = len - rest@.len();
        let ghost before = buckets@;
        let t = rest.pop().unwrap();
        proof {
            assert(t == triggers@.reverse()[rest@.len() as int]);
            assert(t == triggers@[k]);
            assert(rest@ =~= triggers@.reverse().take(rest@.len() as int));
            assert(ts.take(k + 1).drop_last() =~= ts.take(k));
            assert(ts.take(k + 1).last() == t@);
        }
        let c = t.calc.0 as usize;
        let ghost tm = t@;
        buckets[c].push(t);
        proof {
            assert forall|x: int| 0 <= x < n implies trigs_of((#[trigger] buckets@[x])@) == of_calc(
                ts.take(k + 1),
                x,
            ) by {
                assert(trigs_of(before[x]@) == of_calc(ts.take(k), x));
                if x == c {
                    assert(trigs_of(buckets@[x]@) =~= trigs_of(before[x]@).push(tm));
                } else {
                    assert(buckets@[x] == before[x]);
                }
            }
        }
    }
    proof {
        assert(ts.take(len as int) =~= ts);
    }
    let mut out: Vec<Trigger> = Vec::new();
    let mut c: usize = 0;
    proof {
        assert(trigs_of(out@) =~= by_calc(ts, 0));
    }
    while c < n
        invariant
            c <= n,
            buckets@.len() == n,
            forall|x: int| c <= x < n ==> trigs_of((#[trigger] buckets@[x])@) == of_calc(ts, x),
            trigs_of(out@) == by_calc(ts, c as int),
        decreases n - c,
    {
        let ghost before = out@;
        let ghost part = buckets@[c as int]@;
        let ghost old_buckets = buckets@;
        assert(trigs_of(part) == of_calc(ts, c as int));
        out.append(&mut buckets[c]);
        proof {
            assert(trigs_of(out@) =~= trigs_of(before) + trigs_of(part));
            assert forall|x: int| c + 1 <= x < n implies trigs_of((#[trigger] buckets@[x])@)
                == of_calc(ts, x) by {
                assert(buckets@[x] == old_buckets[x]);
            }
        }
        c = c + 1;
    }
    out
}

/// The triggers of one calculation that runs in every frame, for the first `n` instances.
pub open spec fn ecs_for(
    store: Store,
    info: CalcInfo,
    calc: CalcId,
    writer: InstanceId,
    frame: u64,
    subs: Seq<InstanceId>,
    n: int,
) -> Seq<Trig> {
    Seq::new(
        n as nat,
        |i: int|
            Trig {
                calc,
                sub: subs[i],
                input: InputModel::Each(
                    projection(
                        info.pred.delivery->Each_0@,
                        writer,
                        env_of(
                            store,
                            subs[i],
                            Val::Int(frame as i64),
                            Val::Int((frame - 1) as i64),
                        ),
                    ),
                ),
            },
    )
}

/// The triggers of the first `n` calculations that run in every frame.
pub open spec fn ecs_trigs(
    store: Store,
    infos: Seq<CalcInfo>,
    ecs: Seq<CalcId>,
    writer: InstanceId,
    frame: u64,
    n: int,
) -> Seq<Trig>
    decreases n,
{
    if n <= 0 {
        Seq::empty()
    } else {
        let c = ecs[n - 1];
        let info = infos[c.0 as int];
        let subs = store.instances(info.ty);
        ecs_trigs(store, infos, ecs, writer, frame, n - 1) + ecs_for(
            store,
            info,
            c,
            writer,
            frame,
            subs,
            subs.len() as int,
        )
    }
}

/// Adds the triggers of the calculations that run in every frame: for every alive instance,
/// as if the frame number had been routed to it.
pub fn push_ecs_triggers(
    store: &Store,
    infos: &Vec<CalcInfo>,
    ecs: &Vec<CalcId>,
    clock: &Clock,
    frame: u64,
    out: &mut Vec<Trigger>,
)
    requires
        store.wf(),
        ecs_ok(ecs@, infos@),
        1 <= frame <= i64::MAX,
        trigs_ok(trigs_of(old(out)@), infos@),
    ensures
        trigs_of(final(out)@) == trigs_of(old(out)@) + ecs_trigs(
            *store,
            infos@,
            ecs@,
            clock.inst,
            frame,
            ecs@.len() as int,
        ),
        trigs_ok(trigs_of(final(out)@), infos@),
{
    let ghost before = trigs_of(out@);
    let new = Value::Int(frame as i64);
    let old = Value::Int((frame - 1) as i64);
    let mut i: usize = 0;
    assert(trigs_of(out@) =~= before + ecs_trigs(*store, infos@, ecs@, clock.inst, frame, 0));
    while i < ecs.len()
        invariant
            store.wf(),
            ecs_ok(ecs@, infos@),
            1 <= frame <= i64::MAX,
            new@ == Val::Int(frame as i64),
            old@ == Val::Int((frame - 1) as i64),
            i <= ecs@.len(),
            trigs_of(out@) == before + ecs_trigs(
                *store,
                infos@,
                ecs@,
                clock.inst,
                frame,
                i as int,
            ),
            trigs_ok(trigs_of(out@), infos@),
        decreases ecs@.len() - i,
    {
        let c = ecs[i];
        assert(ecs@[i as int].0 < infos@.len());
        let info = &infos[c.0 as usize];
        let subs = store.alive_instances(info.ty);
        proof {
            crate::runtime::store::law_instances_are_the_alive_ones(*store, info.ty);
        }
        let ghost part = trigs_of(out@);
        if let Delivery::Each(projs) = &info.pred.delivery {
            let mut k: usize = 0;
            assert(trigs_of(out@) =~= part + ecs_for(
                *store,
                *info,
                c,
                clock.inst,
                frame,
                subs@,
                0,
            ));
            while k < subs.len()
                invariant
                    store.wf(),
                    c.0 < infos@.len(),
                    *info == infos@[c.0 as int],
                    info.pred.delivery == Delivery::Each(*projs),
                    subs@ == store.instances(info.ty),
                    forall|x: InstanceId| #[trigger]
                        store.instances(info.ty).contains(x) <==> x.ty == info.ty
                            && store.is_alive(x),
                    1 <= frame <= i64::MAX,
                    new@ == Val::Int(frame as i64),
                    old@ == Val::Int((frame - 1) as i64),
                    k <= subs@.len(),
                    trigs_of(out@) == part + ecs_for(
                        *store,
                        *info,
                        c,
                        clock.inst,
                        frame,
                        subs@,
                        k as int,
                    ),
                    trigs_ok(trigs_of(out@), infos@),
                decreases subs@.len() - k,
            {
                let sub = subs[k];
                let ghost prev = out@;
                assert(store.instances(info.ty).contains(subs@[k as int]));
                let ctx = EvalCtx { store, sub, new: &new, old: &old };
                let t = Trigger {
                    calc: c,
                    subscriber: sub,
                    input: Input::Each(project(projs, clock.inst, &ctx)),
                };
                let ghost tm = t@;
                out.push(t);
                proof {
                    assert(trigs_of(out@) =~= trigs_of(prev).push(tm));
                    assert(trigs_of(out@) =~= part + ecs_for(
                        *store,
                        *info,
                        c,
                        clock.inst,
                        frame,
                        subs@,
                        k + 1,
                    ));
                    assert forall|x: int| 0 <= x < trigs_of(out@).len() implies trig_ok(
                        #[trigger] trigs_of(out@)[x],
                        infos@,
                    ) by {
                        if x < trigs_of(prev).len() {
                            assert(trigs_of(out@)[x] == trigs_of(prev)[x]);
                        } else {
                            assert(trigs_of(out@)[x] == tm);
                        }
                    }
                }
                k = k + 1;
            }
        }
        proof {
            assert(trigs_of(out@) =~= before + ecs_trigs(
                *store,
                infos@,
                ecs@,
                clock.inst,
                frame,
                i + 1,
            ));
        }
        i = i + 1;
    }
}

/// The number of triggers from which on a kernel without a pin is sent to the GPU.
pub const GPU_HINT_THRESHOLD: u64 = 1024;

/// Where a calculation runs: where it is pinned to, else by what was measured.
pub open spec fn resolved(info: CalcInfo, triggers: u64) -> Residency {
    match info.opts.residency {
        Residency::Cpu => Residency::Cpu,
        Residency::Gpu => Residency::Gpu,
        Residency::Auto => if triggers >= GPU_HINT_THRESHOLD && info.opts.tier == Tier::Kernel {
            Residency::Gpu
        } else {
            Residency::Cpu
        },
    }
}

pub fn suggest_residency(info: &CalcInfo, triggers: u64) -> (r: Residency)
    ensures
        r == resolved(*info, triggers),
{
    match info.opts.residency {
        Residency::Cpu => Residency::Cpu,
        Residency::Gpu => Residency::Gpu,
        Residency::Auto => if triggers >= GPU_HINT_THRESHOLD && matches!(
            info.opts.tier,
            Tier::Kernel,
        ) {
            Residency::Gpu
        } else {
            Residency::Cpu
        },
    }
}

/// The plan of triggers that are in the order of their calculations: one group for each run
/// of equal calculations.
pub open spec fn plan(ts: Seq<Trig>, infos: Seq<CalcInfo>, profile: Profile) -> Seq<GroupModel>
    decreases ts.len(),
{
    if ts.len() == 0 {
        Seq::empty()
    } else {
        let r = plan(ts.drop_last(), infos, profile);
        let c = ts.last().calc;
        if r.len() > 0 && r.last().calc == c {
            r.update(r.len() - 1, GroupModel { count: r.last().count + 1, ..r.last() })
        } else {
            r.push(
                GroupModel {
                    calc: c,
                    count: 1,
                    tier: infos[c.0 as int].opts.tier,
                    residency: resolved(infos[c.0 as int], profile.triggers_of(c)),
                    reads: reads_of(infos[c.0 as int].opts.reads),
                },
            )
        }
    }
}

/// Makes the plan of a frame.
pub fn build_schedule(triggers: &Vec<Trigger>, infos: &Vec<CalcInfo>, profile: &Profile) -> (r:
    Schedule)
    requires
        trigs_ok(trigs_of(triggers@), infos@),
    ensures
        r@ == plan(trigs_of(triggers@), infos@, *profile),
{
    let ghost ts = trigs_of(triggers@);
    let mut s = Schedule::new();
    let mut i: usize = 0;
    proof {
        assert(ts.take(0) =~= Seq::empty());
    }
    while i < triggers.len()
        invariant
            ts == trigs_of(triggers@),
            trigs_ok(ts, infos@),
            i <= triggers@.len(),
            s@ == plan(ts.take(i as int), infos@, *profile),
            forall|k: int| 0 <= k < s.groups@.len() ==> (#[trigger] s.groups@[k]).count <= i,
        decreases triggers@.len() - i,
    {
        let c = triggers[i].calc;
        let ghost before = s;
        proof {
            assert(ts.take(i + 1).drop_last() =~= ts.take(i as int));
            assert(ts.take(i + 1).last() == triggers@[i as int]@);
            assert(trig_ok(ts[i as int], infos@));
        }
        let n = s.groups.len();
        if n > 0 && s.groups[n - 1].calc == c {
            let k = s.groups[n - 1].count;
            s.groups[n - 1].count = k + 1;
            proof {
                assert(s@ =~= before@.update(
                    n - 1,
                    GroupModel { count: before@.last().count + 1, ..before@.last() },
                ));
            }
        } else {
            let info = &infos[c.0 as usize];
            s.groups.push(
                ScheduleGroup {
                    calc: c,
                    count: 1,
                    tier: info.opts.tier,
                    residency: suggest_residency(info, profile.triggers(c)),
                    reads: copy_reads(&info.opts.reads),
                },
            );
            proof {
                assert(s@ =~= before@.push(s.groups@[n as int]@));
            }
        }
        i = i + 1;
    }
    assert(ts.take(i as int) =~= ts);
    s
}

}
