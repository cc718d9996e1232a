//! Execution: the triggered calculations run, each into a buffer of its own.
use crate::calculation::Ctx;
use crate::calculation::Input;
use crate::calculation::SpawnReq;
use crate::calculation::Violation;
use crate::entity::FieldId;
use crate::kernel::reads_of;
use crate::runtime::route::Trigger;
use crate::runtime::store::Store;
use crate::runtime::CalcInfo;
use crate::runtime::Tier;
use crate::value::Value;
use rayon::iter::IntoParallelRefIterator;
use rayon::iter::ParallelIterator;
use vstd::prelude::*;

verus! {

/// What one run asked for.
pub struct RunResult {
    pub writes: Vec<(FieldId, Value)>,
    pub spawns: Vec<SpawnReq>,
    pub violations: Vec<Violation>,
}

/// A body can be run in any context, on any delivery.
pub open spec fn callable<F: for<'a, 'b, 'c> Fn(&'a mut Ctx<'b>, &'c Input)>(f: F) -> bool {
    forall|c: &mut Ctx<'_>, v: &Input| #[trigger] f.requires((c, v))
}

/// The context in which a trigger runs: the committed data, its subscriber, and nothing
/// asked for yet.
pub open spec fn fresh_ctx(c: Ctx<'_>, store: Store, info: CalcInfo, t: Trigger) -> bool {
    &&& c.store() == store
    &&& c.id() == t.subscriber
    &&& c.declared_reads() == reads_of(info.opts.reads)
    &&& c.is_kernel() == (info.opts.tier == Tier::Kernel)
    &&& c.writes_made().len() == 0
    &&& c.spawns_made().len() == 0
    &&& c.violations_made().len() == 0
}

/// Runs one trigger: the result is what the body made of a fresh context and the delivery. A
/// dead subscriber runs nothing.
pub fn run_one<F: for<'a, 'b, 'c> Fn(&'a mut Ctx<'b>, &'c Input)>(
    store: &Store,
    info: &CalcInfo,
    f: &F,
    t: &Trigger,
) -> (r: RunResult)
    requires
        store.wf(),
        callable(*f),
    ensures
        store.is_alive(t.subscriber) ==> exists|c: &mut Ctx<'_>|
            {
                &&& #[trigger] f.ensures((c, &t.input), ())
                &&& fresh_ctx(*c, *store, *info, *t)
                &&& r.writes@ == final(c).writes_made()
                &&& r.spawns@ == final(c).spawns_made()
                &&& r.violations@ == final(c).violations_made()
            },
        !store.is_alive(t.subscriber) ==> r.writes@.len() == 0 && r.spawns@.len() == 0
            && r.violations@.len() == 0,
{
    if !store.alive(t.subscriber) {
        return RunResult { writes: Vec::new(), spawns: Vec::new(), violations: Vec::new() };
    }
    let kernel = matches!(info.opts.tier, Tier::Kernel);
    let mut ctx = Ctx::new(store, t.subscriber, &info.opts.reads, kernel);
    f(&mut ctx, &t.input);
    let (writes, spawns, violations) = ctx.finish();
    RunResult { writes, spawns, violations }
}

/// Every trigger names a calculation with a body that can be run.
pub open spec fn runnable<F: for<'a, 'b, 'c> Fn(&'a mut Ctx<'b>, &'c Input)>(
    infos: Seq<CalcInfo>,
    bodies: Seq<F>,
    triggers: Seq<Trigger>,
) -> bool {
    &&& bodies.len() == infos.len()
    &&& forall|c: int| 0 <= c < bodies.len() ==> callable(#[trigger] bodies[c])
    &&& forall|i: int| 0 <= i < triggers.len() ==> (#[trigger] triggers[i]).calc.0 < infos.len()
}

/// Runs the body of a trigger's calculation.
fn run_trigger<F: for<'a, 'b, 'c> Fn(&'a mut Ctx<'b>, &'c Input)>(
    store: &Store,
    infos: &Vec<CalcInfo>,
    bodies: &Vec<F>,
    t: &Trigger,
) -> (r: RunResult)
    requires
        store.wf(),
        bodies@.len() == infos@.len(),
        t.calc.0 < infos@.len(),
        callable(bodies@[t.calc.0 as int]),
    ensures
        store.is_alive(t.subscriber) ==> exists|c: &mut Ctx<'_>|
            {
                &&& #[trigger] bodies@[t.calc.0 as int].ensures((c, &t.input), ())
                &&& fresh_ctx(*c, *store, infos@[t.calc.0 as int], *t)
                &&& r.writes@ == final(c).writes_made()
                &&& r.spawns@ == final(c).spawns_made()
                &&& r.violations@ == final(c).violations_made()
            },
        !store.is_alive(t.subscriber) ==> r.writes@.len() == 0 && r.spawns@.len() == 0
            && r.violations@.len() == 0,
{
    let c = t.calc.0 as usize;
    run_one(store, &infos[c], &bodies[c], t)
}

/// Runs all triggers, one after the other.
pub fn run_all<F: for<'a, 'b, 'c> Fn(&'a mut Ctx<'b>, &'c Input)>(
    store: &Store,
    infos: &Vec<CalcInfo>,
    bodies: &Vec<F>,
    triggers: &Vec<Trigger>,
) -> (r: Vec<RunResult>)
    requires
        store.wf(),
        runnable(infos@, bodies@, triggers@),
    ensures
        r@.len() == triggers@.len(),
        forall|i: int|
            #![trigger triggers@[i]]
            0 <= i < r@.len() && store.is_alive(triggers@[i].subscriber) ==> exists|
                c: &mut Ctx<'_>,
            |
                {
                    &&& #[trigger] bodies@[triggers@[i].calc.0 as int].ensures(
                        (c, &triggers@[i].input),
                        (),
                    )
                    &&& fresh_ctx(*c, *store, infos@[triggers@[i].calc.0 as int], triggers@[i])
                    &&& r@[i].writes@ == final(c).writes_made()
                    &&& r@[i].spawns@ == final(c).spawns_made()
                    &&& r@[i].violations@ == final(c).violations_made()
                },
        forall|i: int|
            0 <= i < r@.len() && !store.is_alive(triggers@[i].subscriber) ==> (
            #[trigger] r@[i]).writes@.len() == 0 && r@[i].spawns@.len() == 0
                && r@[i].violations@.len() == 0,
{
    let mut out: Vec<RunResult> = Vec::new();
    let mut i: usize = 0;
    while i < triggers.len()
        invariant
            store.wf(),
            runnable(infos@, bodies@, triggers@),
            i <= triggers@.len(),
            out@.len() == i,
            forall|i: int|
                #![trigger triggers@[i]]
                0 <= i < out@.len() && store.is_alive(triggers@[i].subscriber) ==> exists|
                    c: &mut Ctx<'_>,
                |
                    {
                        &&& #[trigger] bodies@[triggers@[i].calc.0 as int].ensures(
                            (c, &triggers@[i].input),
                            (),
                        )
                        &&& fresh_ctx(*c, *store, infos@[triggers@[i].calc.0 as int], triggers@[i])
                        &&& out@[i].writes@ == final(c).writes_made()
                        &&& out@[i].spawns@ == final(c).spawns_made()
                        &&& out@[i].violations@ == final(c).violations_made()
                    },
            forall|i: int|
                0 <= i < out@.len() && !store.is_alive(triggers@[i].subscriber) ==> (
                #[trigger] out@[i]).writes@.len() == 0 && out@[i].spawns@.len() == 0
                    && out@[i].violations@.len() == 0,
        decreases triggers@.len() - i,
    {
        let t = &triggers[i];
        assert(triggers@[i as int].calc.0 < infos@.len());
        let r = run_trigger(store, infos, bodies, t);
        out.push(r);
        i = i + 1;
    }
    out
}

/// Runs all triggers in parallel: `rayon`'s `par_iter` over the triggers, `map` with
/// `run_trigger`, and `collect` into a vector. A parallel iterator over a vector is an
/// indexed one, and collecting such an iterator writes the result for item `i` at place `i`;
/// so there is one result per trigger, in the order of the triggers, each a result of
/// `run_trigger`.
#[verifier::external_body]
pub(crate) fn run_all_parallel<F: for<'a, 'b, 'c> Fn(&'a mut Ctx<'b>, &'c Input) + Sync>(
    store: &Store,
    infos: &Vec<CalcInfo>,
    bodies: &Vec<F>,
    triggers: &Vec<Trigger>,
) -> (r: Vec<RunResult>)
    requires
        store.wf(),
        runnable(infos@, bodies@, triggers@),
    ensures
        r@.len() == triggers@.len(),
        forall|i: int|
            #![trigger triggers@[i]]
            0 <= i < r@.len() && store.is_alive(triggers@[i].subscriber) ==> exists|
                c: &mut Ctx<'_>,
            |
                {
                    &&& #[trigger] bodies@[triggers@[i].calc.0 as int].ensures(
                        (c, &triggers@[i].input),
                        (),
                    )
                    &&& fresh_ctx(*c, *store, infos@[triggers@[i].calc.0 as int], triggers@[i])
                    &&& r@[i].writes@ == final(c).writes_made()
                    &&& r@[i].spawns@ == final(c).spawns_made()
                    &&& r@[i].violations@ == final(c).violations_made()
                },
        forall|i: int|
            0 <= i < r@.len() && !store.is_alive(triggers@[i].subscriber) ==> (
            #[trigger] r@[i]).writes@.len() == 0 && r@[i].spawns@.len() == 0
                && r@[i].violations@.len() == 0,
{
    triggers.par_iter().map(|t| run_trigger(store, infos, bodies, t)).collect()
}

}
