//! Reactions: calculations that the writes of the simulation set off.
use crate::calculation::rows_of;
use crate::entity::EntityTypeId;
use crate::entity::FieldId;
use crate::entity::InstanceId;
use crate::predicate::holds;
use crate::predicate::Cond;
use crate::predicate::Env;
use crate::predicate::Expr;
use crate::predicate::Proj;
use crate::predicate::ValRef;
use crate::render::clock::RenderClock;
use crate::render::ctx::RenderCtx;
use crate::render::ctx::RenderInput;
use crate::render::ctx::RenderInputModel;
use crate::render::ingest::has_instance;
use crate::lists::first;
use crate::lists::lemma_first;
use crate::render::local::RenderLocalCommand;
use crate::render::store::RFieldId;
use crate::render::store::RenderStore;
use crate::render::writes::commit_writes;
use crate::render::writes::notes_of;
use crate::render::writes::only_values;
use crate::render::writes::write_notes;
use crate::render::writes::written;
use crate::render::writes::RenderNote;
use crate::runtime::eval::eval_cond;
use crate::runtime::eval::expr_independent;
use crate::runtime::eval::independent;
use crate::runtime::eval::project;
use crate::runtime::eval::projection;
use crate::runtime::eval::EvalCtx;
use crate::runtime::lifecycle::log_of;
use crate::runtime::lifecycle::WriteModel;
use crate::runtime::lifecycle::WriteRec;
use crate::runtime::store::Store;
use crate::value::vals_of;
use crate::value::Val;
use crate::value::Value;
use vstd::prelude::*;

verus! {

/// A reaction, without its body. The writer is the one that reacts.
pub struct Reaction {
    pub name: String,
    pub ty: EntityTypeId,
    pub sim_field: FieldId,
    /// Reads the written values alone.
    pub cond: Cond,
    pub projs: Vec<Proj>,
    /// One run per frame, with all hits.
    pub batched: bool,
    pub writes: Vec<RFieldId>,
}

/// The projection reads the written values alone.
pub open spec fn proj_ok(p: Proj) -> bool {
    match p {
        Proj::Own(_) => false,
        Proj::Expr(e) => expr_independent(e),
        _ => true,
    }
}

fn expr_ok(e: &Expr) -> (r: bool)
    ensures
        r == expr_independent(*e),
    decreases e,
{
    match e {
        Expr::Val(v) => !matches!(v, ValRef::Own(_) | ValRef::SelfRef),
        Expr::Add(a, b) => expr_ok(a) && expr_ok(b),
        Expr::Sub(a, b) => expr_ok(a) && expr_ok(b),
        Expr::Mul(a, b) => expr_ok(a) && expr_ok(b),
        Expr::Div(a, b) => expr_ok(a) && expr_ok(b),
    }
}

/// Whether a condition may stand in a reaction: it reads nothing of a subscriber.
pub fn validate_reaction_cond(c: &Cond) -> (r: bool)
    ensures
        r == independent(*c),
    decreases c,
{
    match c {
        Cond::Cmp(a, _, b) => expr_ok(a) && expr_ok(b),
        Cond::Crossed(t, _) => expr_ok(t),
        Cond::And(a, b) => validate_reaction_cond(a) && validate_reaction_cond(b),
        Cond::Or(a, b) => validate_reaction_cond(a) && validate_reaction_cond(b),
        Cond::AndNot(a, b) => validate_reaction_cond(a) && validate_reaction_cond(b),
        _ => true,
    }
}

/// Whether projections may stand in a reaction.
pub fn validate_reaction_projs(projs: &Vec<Proj>) -> (r: bool)
    ensures
        r == forall|i: int| 0 <= i < projs@.len() ==> proj_ok(#[trigger] projs@[i]),
{
    let mut i: usize = 0;
    while i < projs.len()
        invariant
            i <= projs@.len(),
            forall|j: int| 0 <= j < i ==> proj_ok(#[trigger] projs@[j]),
        decreases projs@.len() - i,
    {
        let ok = match &projs[i] {
            Proj::Own(_) => false,
            Proj::Expr(e) => expr_ok(e),
            _ => true,
        };
        if !ok {
            assert(!proj_ok(projs@[i as int]));
            return false;
        }
        i = i + 1;
    }
    true
}

/// What a reaction's condition reads of a write.
pub open spec fn write_env(w: WriteModel) -> Env {
    Env { new: w.new, old: w.old, sub: w.inst, row: |f: FieldId| Val::Null }
}

impl Reaction {
    /// The write sets off the reaction.
    pub open spec fn fires(self, w: WriteModel) -> bool {
        &&& w.inst.ty == self.ty
        &&& w.field == self.sim_field
        &&& holds(self.cond, write_env(w))
    }

    /// The hits among the first `n` writes, without those of the dead.
    pub open spec fn hits(self, log: Seq<WriteModel>, deaths: Seq<InstanceId>, n: int) -> Seq<
        (InstanceId, Seq<Val>),
    >
        decreases n,
    {
        if n <= 0 {
            Seq::empty()
        } else {
            let s = self.hits(log, deaths, n - 1);
            let w = log[n - 1];
            if !deaths.contains(w.inst) && self.fires(w) {
                s.push((w.inst, projection(self.projs@, w.inst, write_env(w))))
            } else {
                s
            }
        }
    }
}

/// A run to make.
pub struct Job {
    pub reaction: usize,
    pub inst: InstanceId,
    pub input: RenderInput,
}

/// What a `Job` holds.
pub ghost struct JobModel {
    pub reaction: usize,
    pub inst: InstanceId,
    pub input: RenderInputModel,
}

impl View for Job {
    type V = JobModel;

    open spec fn view(&self) -> JobModel {
        JobModel { reaction: self.reaction, inst: self.inst, input: self.input@ }
    }
}

pub open spec fn jobs_of(js: Seq<Job>) -> Seq<JobModel> {
    Seq::new(js.len(), |i: int| js[i]@)
}

/// The hits of each instance together, in the order of their first ones.
pub open spec fn grouped(hits: Seq<(InstanceId, Seq<Val>)>, n: int) -> Seq<
    (InstanceId, Seq<Seq<Val>>),
>
    decreases n,
{
    if n <= 0 {
        Seq::empty()
    } else {
        let s = grouped(hits, n - 1);
        let (inst, row) = hits[n - 1];
        let k = first(s, group_of(inst));
        if k < s.len() {
            s.update(k, (inst, s[k].1.push(row)))
        } else {
            s.push((inst, seq![row]))
        }
    }
}

/// The group is that of the instance.
pub open spec fn group_of(inst: InstanceId) -> spec_fn((InstanceId, Seq<Seq<Val>>)) -> bool {
    |g: (InstanceId, Seq<Seq<Val>>)| g.0 == inst
}

/// The runs of a reaction.
pub open spec fn reaction_jobs(
    r: Reaction,
    ri: usize,
    log: Seq<WriteModel>,
    deaths: Seq<InstanceId>,
) -> Seq<JobModel> {
    let hits = r.hits(log, deaths, log.len() as int);
    if r.batched {
        let groups = grouped(hits, hits.len() as int);
        Seq::new(
            groups.len(),
            |i: int|
                JobModel {
                    reaction: ri,
                    inst: groups[i].0,
                    input: RenderInputModel::Batch(groups[i].1),
                },
        )
    } else {
        Seq::new(
            hits.len(),
            |i: int|
                JobModel {
                    reaction: ri,
                    inst: hits[i].0,
                    input: RenderInputModel::Each(hits[i].1),
                },
        )
    }
}

/// The runs of the first `n` reactions.
pub open spec fn all_jobs(
    rs: Seq<Reaction>,
    log: Seq<WriteModel>,
    deaths: Seq<InstanceId>,
    n: int,
) -> Seq<JobModel>
    decreases n,
{
    if n <= 0 {
        Seq::empty()
    } else {
        all_jobs(rs, log, deaths, n - 1) + reaction_jobs(
            rs[n - 1],
            (n - 1) as usize,
            log,
            deaths,
        )
    }
}

/// The model of collected hits.
pub open spec fn hits_of(hs: Seq<(InstanceId, Vec<Value>)>) -> Seq<(InstanceId, Seq<Val>)> {
    Seq::new(hs.len(), |i: int| (hs[i].0, vals_of(hs[i].1@)))
}

/// The model of groups of hits.
pub open spec fn groups_of(gs: Seq<(InstanceId, Vec<Vec<Value>>)>) -> Seq<
    (InstanceId, Seq<Seq<Val>>),
> {
    Seq::new(gs.len(), |i: int| (gs[i].0, rows_of(gs[i].1@)))
}

fn collect_hits(r: &Reaction, events: &Vec<WriteRec>, deaths: &Vec<InstanceId>) -> (out: Vec<
    (InstanceId, Vec<Value>),
>)
    ensures
        hits_of(out@) == r.hits(log_of(events@), deaths@, events@.len() as int),
{
    let nowhere = Store::new();
    let ghost log = log_of(events@);
    let mut out: Vec<(InstanceId, Vec<Value>)> = Vec::new();
    let mut i: usize = 0;
    assert(hits_of(out@) =~= Seq::empty());
    while i < events.len()
        invariant
            nowhere.wf(),
            nowhere.types@.len() == 0,
            log == log_of(events@),
            i <= events@.len(),
            hits_of(out@) == r.hits(log, deaths@, i as int),
        decreases events@.len() - i,
    {
        let w = &events[i];
        let c = EvalCtx { store: &nowhere, sub: w.inst, new: &w.new, old: &w.old };
        let ghost before = hits_of(out@);
        proof {
            assert(log[i as int] == w@);
            assert(c.env().row =~= write_env(w@).row) by {
                assert forall|f: FieldId| #[trigger] (c.env().row)(f) == Val::Null by {}
            }
            assert(c.env() == write_env(w@));
        }
        if !has_instance(deaths, w.inst) && w.inst.ty == r.ty && w.field == r.sim_field
            && eval_cond(&r.cond, &c) {
            let row = project(&r.projs, w.inst, &c);
            out.push((w.inst, row));
            proof {
                assert(hits_of(out@) =~= before.push(
                    (w.inst, projection(r.projs@, w.inst, write_env(w@))),
                ));
            }
        }
        i = i + 1;
    }
    out
}

fn group_hits(hits: Vec<(InstanceId, Vec<Value>)>) -> (r: Vec<(InstanceId, Vec<Vec<Value>>)>)
    ensures
        groups_of(r@) == grouped(hits_of(hits@), hits@.len() as int),
{
    let ghost all = hits_of(hits@);
    let mut rest = hits;
    let mut out: Vec<(InstanceId, Vec<Vec<Value>>)> = Vec::new();
    let n = rest.len();
    let mut i: usize = 0;
    assert(groups_of(out@) =~= Seq::empty());
    while i < n
        invariant
            n == rest@.len() == all.len(),
            i <= n,
            forall|j: int| i <= j < n ==> (#[trigger] hits_of(rest@)[j]) == all[j],
            groups_of(out@) == grouped(all, i as int),
        decreases n - i,
    {
        let ghost s = groups_of(out@);
        let inst = rest[i].0;
        let ghost rest0 = rest@;
        assert(hits_of(rest@)[i as int] == all[i as int]);
        let mut row: Vec<Value> = Vec::new();
        core::mem::swap(&mut row, &mut rest[i].1);
        proof {
            assert forall|j: int| i + 1 <= j < n implies (#[trigger] hits_of(rest@)[j]) == all[j] by {
                assert(hits_of(rest0)[j] == all[j]);
                assert(rest@[j] == rest0[j]);
            }
        }
        let mut k: usize = 0;
        while k < out.len()
            invariant
                s == groups_of(out@),
                k <= out@.len(),
                forall|j: int| 0 <= j < k ==> !group_of(inst)(#[trigger] s[j]),
            ensures
                s == groups_of(out@),
                k <= out@.len(),
                forall|j: int| 0 <= j < k ==> !group_of(inst)(#[trigger] s[j]),
                k < out@.len() ==> group_of(inst)(s[k as int]),
            decreases out@.len() - k,
        {
            assert(s[k as int].0 == out@[k as int].0);
            if out[k].0 == inst {
                break;
            }
            k = k + 1;
        }
        proof {
            lemma_first(s, group_of(inst), k as int);
        }
        let ghost rv = vals_of(row@);
        if k < out.len() {
            let ghost rows0 = out@[k as int].1@;
            out[k].1.push(row);
            proof {
                assert(rows_of(out@[k as int].1@) =~= rows_of(rows0).push(rv));
                assert(groups_of(out@) =~= s.update(k as int, (inst, s[k as int].1.push(rv))));
            }
        } else {
            let mut rows: Vec<Vec<Value>> = Vec::new();
            rows.push(row);
            proof {
                assert(rows_of(rows@) =~= seq![rv]);
            }
            out.push((inst, rows));
            proof {
                assert(groups_of(out@) =~= s.push((inst, seq![rv])));
            }
        }
        i = i + 1;
    }
    out
}

/// The runs that the writes of a frame set off.
pub fn build_jobs(rs: &Vec<Reaction>, events: &Vec<WriteRec>, deaths: &Vec<InstanceId>) -> (r: Vec<
    Job,
>)
    ensures
        jobs_of(r@) == all_jobs(rs@, log_of(events@), deaths@, rs@.len() as int),
{
    let ghost log = log_of(events@);
    let mut out: Vec<Job> = Vec::new();
    let mut ri: usize = 0;
    assert(jobs_of(out@) =~= Seq::empty());
    while ri < rs.len()
        invariant
            log == log_of(events@),
            ri <= rs@.len(),
            jobs_of(out@) == all_jobs(rs@, log, deaths@, ri as int),
        decreases rs@.len() - ri,
    {
        let ghost before = jobs_of(out@);
        let mut hits = collect_hits(&rs[ri], events, deaths);
        let ghost h = hits_of(hits@);
        let ghost mine = reaction_jobs(rs@[ri as int], ri, log, deaths@);
        if rs[ri].batched {
            let mut groups = group_hits(hits);
            let ghost g = groups_of(groups@);
            let n = groups.len();
            let mut i: usize = 0;
            while i < n
                invariant
                    n == groups@.len() == g.len() == mine.len(),
                    i <= n,
                    forall|j: int| i <= j < n ==> (#[trigger] groups_of(groups@)[j]) == g[j],
                    forall|j: int|
                        0 <= j < n ==> #[trigger] mine[j] == (JobModel {
                            reaction: ri,
                            inst: g[j].0,
                            input: RenderInputModel::Batch(g[j].1),
                        }),
                    jobs_of(out@) == before + mine.take(i as int),
                decreases n - i,
            {
                let ghost o0 = jobs_of(out@);
                let ghost g0 = groups@;
                assert(groups_of(groups@)[i as int] == g[i as int]);
                let mut rows: Vec<Vec<Value>> = Vec::new();
                core::mem::swap(&mut rows, &mut groups[i].1);
                let job = Job { reaction: ri, inst: groups[i].0, input: RenderInput::Batch(rows) };
                out.push(job);
                proof {
                    assert forall|j: int| i + 1 <= j < n implies (
                    #[trigger] groups_of(groups@)[j]) == g[j] by {
                        assert(groups_of(g0)[j] == g[j]);
                        assert(groups@[j] == g0[j]);
                    }
                    assert(job@ == mine[i as int]);
                    assert(jobs_of(out@) =~= o0.push(mine[i as int]));
                    assert(jobs_of(out@) =~= before + mine.take(i + 1));
                }
                i = i + 1;
            }
        } else {
            let n = hits.len();
            let mut i: usize = 0;
            while i < n
                invariant
                    n == hits@.len() == h.len() == mine.len(),
                    i <= n,
                    forall|j: int| i <= j < n ==> (#[trigger] hits_of(hits@)[j]) == h[j],
                    forall|j: int|
                        0 <= j < n ==> #[trigger] mine[j] == (JobModel {
                            reaction: ri,
                            inst: h[j].0,
                            input: RenderInputModel::Each(h[j].1),
                        }),
                    jobs_of(out@) == before + mine.take(i as int),
                decreases n - i,
            {
                let ghost o0 = jobs_of(out@);
                let ghost h0 = hits@;
                assert(hits_of(hits@)[i as int] == h[i as int]);
                let mut row: Vec<Value> = Vec::new();
                core::mem::swap(&mut row, &mut hits[i].1);
                let job = Job { reaction: ri, inst: hits[i].0, input: RenderInput::Each(row) };
                out.push(job);
                proof {
                    assert forall|j: int| i + 1 <= j < n implies (
                    #[trigger] hits_of(hits@)[j]) == h[j] by {
                        assert(hits_of(h0)[j] == h[j]);
                        assert(hits@[j] == h0[j]);
                    }
                    assert(job@ == mine[i as int]);
                    assert(jobs_of(out@) =~= o0.push(mine[i as int]));
                    assert(jobs_of(out@) =~= before + mine.take(i + 1));
                }
                i = i + 1;
            }
        }
        proof {
            assert(mine.take(mine.len() as int) =~= mine);
        }
        ri = ri + 1;
    }
    out
}

/// What a run asked for.
pub ghost struct RunOut {
    pub writes: Seq<(RFieldId, Value)>,
    pub commands: Seq<RenderLocalCommand>,
}

/// `after` is `before` with the writes of a run of `inst`.
pub open spec fn committed(
    after: RenderStore,
    before: RenderStore,
    inst: InstanceId,
    declared: Seq<RFieldId>,
    writes: Seq<(RFieldId, Value)>,
) -> bool {
    &&& after.wf()
    &&& only_values(after, before)
    &&& forall|i: InstanceId, f: RFieldId| #[trigger]
        after.value(i, f) == written(before, inst, declared, writes, i, f)
}

/// The notes on the first `n` runs.
pub open spec fn notes_upto(
    insts: Seq<InstanceId>,
    declared: Seq<Seq<RFieldId>>,
    runs: Seq<RunOut>,
    n: int,
) -> Seq<RenderNote>
    decreases n,
{
    if n <= 0 {
        Seq::empty()
    } else {
        notes_upto(insts, declared, runs, n - 1) + notes_of(
            Some(insts[n - 1]),
            None,
            write_notes(declared[n - 1], runs[n - 1].writes),
        )
    }
}

/// The requests of the first `n` runs.
pub open spec fn commands_upto(runs: Seq<RunOut>, n: int) -> Seq<RenderLocalCommand>
    decreases n,
{
    if n <= 0 {
        Seq::empty()
    } else {
        commands_upto(runs, n - 1) + runs[n - 1].commands
    }
}

/// The runs of a frame one after the other: each starts from the data that the one before it
/// left, `states[i]`, and its writes make `states[i + 1]`. Who is not there asks for nothing.
pub open spec fn chained(
    states: Seq<RenderStore>,
    insts: Seq<InstanceId>,
    declared: Seq<Seq<RFieldId>>,
    runs: Seq<RunOut>,
) -> bool {
    &&& states.len() == insts.len() + 1
    &&& runs.len() == insts.len()
    &&& declared.len() == insts.len()
    &&& forall|i: int|
        0 <= i < insts.len() ==> committed(
            #[trigger] states[i + 1],
            states[i],
            insts[i],
            declared[i],
            runs[i].writes,
        )
    &&& forall|i: int|
        0 <= i < insts.len() && !states[0].present(insts[i]) ==> (#[trigger] runs[i]).writes.len()
            == 0 && runs[i].commands.len() == 0
}

/// A body can be run in any context, on any delivery.
pub open spec fn reacts<R: for<'a, 'b, 'c> Fn(&'a mut RenderCtx<'b>, &'c RenderInput)>(
    f: R,
) -> bool {
    forall|c: &mut RenderCtx<'_>, v: &RenderInput| #[trigger] f.requires((c, v))
}

/// The instances of runs.
pub open spec fn job_insts(jobs: Seq<JobModel>) -> Seq<InstanceId> {
    Seq::new(jobs.len(), |i: int| jobs[i].inst)
}

/// The declared writes of runs.
pub open spec fn job_writes(rs: Seq<Reaction>, jobs: Seq<JobModel>) -> Seq<Seq<RFieldId>> {
    Seq::new(jobs.len(), |i: int| rs[jobs[i].reaction as int].writes@)
}

/// Runs a body for an instance, and hands over what it asked for.
fn run_body<R: for<'a, 'b, 'c> Fn(&'a mut RenderCtx<'b>, &'c RenderInput)>(
    store: &RenderStore,
    inst: InstanceId,
    clock: RenderClock,
    f: &R,
    input: &RenderInput,
) -> (r: (Vec<(RFieldId, Value)>, Vec<RenderLocalCommand>))
    requires
        store.wf(),
        reacts(*f),
    ensures
        exists|c: &mut RenderCtx<'_>|
            {
                &&& #[trigger] f.ensures((c, input), ())
                &&& (*c).fresh(*store, inst, clock)
                &&& r.0@ == final(c).writes_made()
                &&& r.1@ == final(c).commands_made()
            },
{
    let mut ctx = RenderCtx::new(store, inst, clock);
    f(&mut ctx, input);
    ctx.finish()
}

/// Runs the reactions of a frame, each on the data that the one before it left.
pub fn run_reactions<R: for<'a, 'b, 'c> Fn(&'a mut RenderCtx<'b>, &'c RenderInput)>(
    store: &mut RenderStore,
    rs: &Vec<Reaction>,
    bodies: &Vec<R>,
    jobs: &Vec<Job>,
    clock: RenderClock,
    notes: &mut Vec<RenderNote>,
    commands: &mut Vec<RenderLocalCommand>,
)
    requires
        old(store).wf(),
        bodies@.len() == rs@.len(),
        forall|k: int| 0 <= k < bodies@.len() ==> reacts(#[trigger] bodies@[k]),
        forall|i: int| 0 <= i < jobs@.len() ==> (#[trigger] jobs@[i]).reaction < rs@.len(),
    ensures
        final(store).wf(),
        only_values(*final(store), *old(store)),
        exists|states: Seq<RenderStore>, runs: Seq<RunOut>|
            {
                &&& #[trigger] chained(
                    states,
                    job_insts(jobs_of(jobs@)),
                    job_writes(rs@, jobs_of(jobs@)),
                    runs,
                )
                &&& states[0] == *old(store)
                &&& states[jobs@.len() as int] == *final(store)
                &&& forall|i: int|
                    #![trigger jobs@[i]]
                    0 <= i < jobs@.len() && old(store).present(jobs@[i].inst) ==> exists|
                        c: &mut RenderCtx<'_>,
                    |
                        {
                            &&& #[trigger] bodies@[jobs@[i].reaction as int].ensures(
                                (c, &jobs@[i].input),
                                (),
                            )
                            &&& (*c).fresh(states[i], jobs@[i].inst, clock)
                            &&& runs[i].writes == final(c).writes_made()
                            &&& runs[i].commands == final(c).commands_made()
                        }
                &&& final(notes)@ == old(notes)@ + notes_upto(
                    job_insts(jobs_of(jobs@)),
                    job_writes(rs@, jobs_of(jobs@)),
                    runs,
                    jobs@.len() as int,
                )
                &&& final(commands)@ == old(commands)@ + commands_upto(runs, jobs@.len() as int)
            },
{
    let ghost before = *store;
    let ghost notes0 = notes@;
    let ghost commands0 = commands@;
    let ghost insts = job_insts(jobs_of(jobs@));
    let ghost declared = job_writes(rs@, jobs_of(jobs@));
    let ghost mut states: Seq<RenderStore> = seq![before];
    let ghost mut runs: Seq<RunOut> = Seq::empty();
    let mut i: usize = 0;
    proof {
        assert(notes@ =~= notes0 + notes_upto(insts, declared, runs, 0));
        assert(commands@ =~= commands0 + commands_upto(runs, 0));
        lemma_only_values_same(before);
    }
    while i < jobs.len()
        invariant
            bodies@.len() == rs@.len(),
            forall|k: int| 0 <= k < bodies@.len() ==> reacts(#[trigger] bodies@[k]),
            forall|k: int| 0 <= k < jobs@.len() ==> (#[trigger] jobs@[k]).reaction < rs@.len(),
            insts == job_insts(jobs_of(jobs@)),
            declared == job_writes(rs@, jobs_of(jobs@)),
            i <= jobs@.len(),
            store.wf(),
            only_values(*store, before),
            states.len() == i + 1,
            runs.len() == i,
            states[0] == before,
            states[i as int] == *store,
            forall|k: int|
                0 <= k < i ==> committed(
                    #[trigger] states[k + 1],
                    states[k],
                    insts[k],
                    declared[k],
                    runs[k].writes,
                ),
            forall|k: int|
                0 <= k < i && !before.present(insts[k]) ==> (#[trigger] runs[k]).writes.len() == 0
                    && runs[k].commands.len() == 0,
            forall|k: int|
                #![trigger jobs@[k]]
                0 <= k < i && before.present(jobs@[k].inst) ==> exists|c: &mut RenderCtx<'_>|
                    {
                        &&& #[trigger] bodies@[jobs@[k].reaction as int].ensures(
                            (c, &jobs@[k].input),
                            (),
                        )
                        &&& (*c).fresh(states[k], jobs@[k].inst, clock)
                        &&& runs[k].writes == final(c).writes_made()
                        &&& runs[k].commands == final(c).commands_made()
                    },
            notes@ == notes0 + notes_upto(insts, declared, runs, i as int),
            commands@ == commands0 + commands_upto(runs, i as int),
        decreases jobs@.len() - i,
    {
        let job = &jobs[i];
        let ghost s0 = *store;
        let ghost states0 = states;
        let ghost runs0 = runs;
        let ghost n0 = notes@;
        let ghost c0 = commands@;
        assert(jobs_of(jobs@)[i as int] == job@);
        assert(jobs@[i as int].reaction < rs@.len());
        if store.is_present(job.inst) {
            let (writes, mut cmds) = run_body(
                store,
                job.inst,
                clock,
                &bodies[job.reaction],
                &job.input,
            );
            let ghost run = RunOut { writes: writes@, commands: cmds@ };
            commit_writes(store, job.inst, &rs[job.reaction].writes, writes, notes);
            commands.append(&mut cmds);
            proof {
                states = states.push(*store);
                runs = runs.push(run);
            }
        } else {
            proof {
                let run = RunOut { writes: Seq::empty(), commands: Seq::empty() };
                states = states.push(*store);
                runs = runs.push(run);
                lemma_only_values_same(s0);
                assert(commands@ =~= c0 + run.commands);
                assert(notes@ =~= n0 + notes_of(
                    Some(job.inst),
                    None,
                    write_notes(declared[i as int], run.writes),
                ));
            }
        }
        proof {
            assert(before.present(job.inst) <==> s0.present(job.inst));
            crate::render::mirror::lemma_only_values_step(*store, s0, before);
            lemma_runs_agree(insts, declared, runs0, runs, i as int);
            assert(notes@ =~= notes0 + notes_upto(insts, declared, runs, i + 1));
            assert(commands@ =~= commands0 + commands_upto(runs, i + 1));
            assert forall|k: int| 0 <= k < i + 1 implies committed(
                #[trigger] states[k + 1],
                states[k],
                insts[k],
                declared[k],
                runs[k].writes,
            ) by {
                if k < i {
                    assert(states0[k + 1] == states[k + 1] && states0[k] == states[k] && runs0[k]
                        == runs[k]);
                }
            }
            assert forall|k: int|
                0 <= k < i + 1 && !before.present(insts[k]) implies (
            #[trigger] runs[k]).writes.len() == 0 && runs[k].commands.len() == 0 by {
                if k < i {
                    assert(runs0[k] == runs[k]);
                }
            }
            assert forall|k: int|
                #![trigger jobs@[k]]
                0 <= k < i + 1 && before.present(jobs@[k].inst) implies exists|
                c: &mut RenderCtx<'_>,
            |
                {
                    &&& #[trigger] bodies@[jobs@[k].reaction as int].ensures(
                        (c, &jobs@[k].input),
                        (),
                    )
                    &&& (*c).fresh(states[k], jobs@[k].inst, clock)
                    &&& runs[k].writes == final(c).writes_made()
                    &&& runs[k].commands == final(c).commands_made()
                } by {
                if k < i {
                    assert(states0[k] == states[k] && runs0[k] == runs[k]);
                }
            }
        }
        i = i + 1;
    }
    proof {
        assert(chained(states, insts, declared, runs));
    }
}

pub proof fn lemma_only_values_same(s: RenderStore)
    ensures
        only_values(s, s),
{
    assert forall|t: int| 0 <= t < s.types@.len() implies (#[trigger] s.types@[t]).same_schema(
        s.types@[t],
    ) by {}
}

pub proof fn lemma_runs_agree(
    insts: Seq<InstanceId>,
    declared: Seq<Seq<RFieldId>>,
    a: Seq<RunOut>,
    b: Seq<RunOut>,
    n: int,
)
    requires
        n <= a.len(),
        n <= b.len(),
        forall|i: int| 0 <= i < n ==> #[trigger] a[i] == b[i],
    ensures
        notes_upto(insts, declared, a, n) == notes_upto(insts, declared, b, n),
        commands_upto(a, n) == commands_upto(b, n),
    decreases n,
{
    if n > 0 {
        lemma_runs_agree(insts, declared, a, b, n - 1);
        assert(a[n - 1] == b[n - 1]);
    }
}

}
