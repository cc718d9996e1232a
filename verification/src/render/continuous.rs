//! Continuous calculations: those that run in every render frame.
//!
//! All of a frame's runs read the data as it was before the first of them, so that their
//! order makes no difference to what they see.
use crate::entity::EntityTypeId;
use crate::entity::InstanceId;
use crate::render::clock::RenderClock;
use crate::render::ctx::RenderCtx;
use crate::lists::kept;
use crate::lists::lemma_kept_next;
use crate::render::local::RenderLocalCommand;
use crate::render::local::RenderLocalTypeId;
use crate::render::mirror::lemma_only_values_step;
use crate::render::mirror::Mirror;
use crate::render::reaction::chained;
use crate::render::reaction::commands_upto;
use crate::render::reaction::committed;
use crate::render::reaction::lemma_only_values_same;
use crate::render::reaction::notes_upto;
use crate::render::reaction::RunOut;
use crate::render::store::law_live_instances_are_present;
use crate::render::store::RFieldId;
use crate::render::store::RenderStore;
use crate::render::submission::bucket_at;
use crate::render::submission::find_bucket;
use crate::render::writes::commit_writes;
use crate::render::writes::only_values;
use crate::render::writes::RenderNote;
use crate::value::Value;
use vstd::prelude::*;

verus! {

/// A continuous calculation, without its body.
pub struct Continuous {
    pub name: String,
    pub ty: EntityTypeId,
    pub writes: Vec<RFieldId>,
}

/// A continuous calculation of local entities, without its body.
pub struct LocalContinuous {
    pub name: String,
    pub ty: RenderLocalTypeId,
    pub writes: Vec<RFieldId>,
}

impl Mirror {
    /// The instances for which the calculations of a type run: those in view where the type
    /// is culled, and otherwise all that are there.
    pub open spec fn scanned(self, ty: EntityTypeId) -> Seq<InstanceId> {
        match self.spatial {
            Some(sp) => if sp.active && sp.culling(ty) is Some {
                kept(
                    sp.visible@[bucket_at(sp.visible@, ty)].insts@,
                    |i: InstanceId| self.store.present(i),
                )
            } else {
                self.store.live(ty)
            },
            None => self.store.live(ty),
        }
    }

    pub fn scan(&self, ty: EntityTypeId) -> (r: Vec<InstanceId>)
        requires
            self.wf(),
            self.store.known(ty),
        ensures
            r@ == self.scanned(ty),
    {
        if let Some(sp) = &self.spatial {
            if sp.active && sp.culling_of(ty).is_some() {
                let k = find_bucket(&sp.visible, ty);
                proof {
                    let c = crate::render::culling::culled_at(sp.culled@, ty);
                    crate::lists::lemma_first_found(
                        sp.culled@,
                        |c: crate::render::culling::CulledType| c.ty == ty,
                    );
                    assert(sp.visible@[c].ty == ty);
                }
                let insts = &sp.visible[k].insts;
                let ghost p = |i: InstanceId| self.store.present(i);
                let mut out: Vec<InstanceId> = Vec::new();
                let mut i: usize = 0;
                assert(insts@.take(0) =~= Seq::empty());
                while i < insts.len()
                    invariant
                        p == (|i: InstanceId| self.store.present(i)),
                        i <= insts@.len(),
                        out@ == kept(insts@.take(i as int), p),
                    decreases insts@.len() - i,
                {
                    proof {
                        lemma_kept_next(insts@, p, i as int);
                    }
                    if self.store.is_present(insts[i]) {
                        out.push(insts[i]);
                    }
                    i = i + 1;
                }
                assert(insts@.take(insts@.len() as int) =~= insts@);
                return out;
            }
        }
        self.store.live_instances(ty)
    }
}

/// The runs of the first `n` calculations: the calculation and the instance.
pub open spec fn scans(m: Mirror, cs: Seq<Continuous>, n: int) -> Seq<(usize, InstanceId)>
    decreases n,
{
    if n <= 0 {
        Seq::empty()
    } else {
        let insts = m.scanned(cs[n - 1].ty);
        scans(m, cs, n - 1) + Seq::new(insts.len(), |i: int| ((n - 1) as usize, insts[i]))
    }
}

pub fn build_scans(m: &Mirror, cs: &Vec<Continuous>) -> (r: Vec<(usize, InstanceId)>)
    requires
        m.wf(),
        forall|k: int| 0 <= k < cs@.len() ==> m.store.known((#[trigger] cs@[k]).ty),
    ensures
        r@ == scans(*m, cs@, cs@.len() as int),
        forall|i: int| 0 <= i < r@.len() ==> (#[trigger] r@[i]).0 < cs@.len(),
{
    let mut out: Vec<(usize, InstanceId)> = Vec::new();
    let mut k: usize = 0;
    while k < cs.len()
        invariant
            m.wf(),
            forall|k: int| 0 <= k < cs@.len() ==> m.store.known((#[trigger] cs@[k]).ty),
            k <= cs@.len(),
            out@ == scans(*m, cs@, k as int),
            forall|i: int| 0 <= i < out@.len() ==> (#[trigger] out@[i]).0 < k,
        decreases cs@.len() - k,
    {
        let ghost before = out@;
        assert(m.store.known(cs@[k as int].ty));
        let insts = m.scan(cs[k].ty);
        let ghost mine = Seq::new(insts@.len(), |i: int| (k, insts@[i]));
        let mut i: usize = 0;
        while i < insts.len()
            invariant
                i <= insts@.len(),
                mine == Seq::new(insts@.len(), |i: int| (k, insts@[i])),
                out@ =~= before + mine.take(i as int),
                forall|j: int| 0 <= j < out@.len() ==> (#[trigger] out@[j]).0 <= k,
            decreases insts@.len() - i,
        {
            out.push((k, insts[i]));
            i = i + 1;
        }
        assert(mine.take(mine.len() as int) =~= mine);
        k = k + 1;
    }
    out
}

/// A body can be run in any context.
pub open spec fn ticks<C: for<'a, 'b> Fn(&'a mut RenderCtx<'b>)>(f: C) -> bool {
    forall|c: &mut RenderCtx<'_>| #[trigger] f.requires((c,))
}

pub open spec fn scan_insts(jobs: Seq<(usize, InstanceId)>) -> Seq<InstanceId> {
    Seq::new(jobs.len(), |i: int| jobs[i].1)
}

pub open spec fn scan_writes(cs: Seq<Continuous>, jobs: Seq<(usize, InstanceId)>) -> Seq<
    Seq<RFieldId>,
> {
    Seq::new(jobs.len(), |i: int| cs[jobs[i].0 as int].writes@)
}

/// What a run asked for.
pub struct Asked {
    pub writes: Vec<(RFieldId, Value)>,
    pub commands: Vec<RenderLocalCommand>,
}

impl View for Asked {
    type V = RunOut;

    open spec fn view(&self) -> RunOut {
        RunOut { writes: self.writes@, commands: self.commands@ }
    }
}

fn tick_body<C: for<'a, 'b> Fn(&'a mut RenderCtx<'b>)>(
    store: &RenderStore,
    inst: InstanceId,
    clock: RenderClock,
    f: &C,
) -> (r: Asked)
    requires
        store.wf(),
        ticks(*f),
    ensures
        exists|c: &mut RenderCtx<'_>|
            {
                &&& f.ensures((c,), ())
                &&& #[trigger] (*c).fresh(*store, inst, clock)
                &&& r.writes@ == final(c).writes_made()
                &&& r.commands@ == final(c).commands_made()
            },
{
    let mut ctx = RenderCtx::new(store, inst, clock);
    f(&mut ctx);
    let (writes, commands) = ctx.finish();
    Asked { writes, commands }
}

/// Runs the continuous calculations of a frame, all on the same data.
fn tick_all<C: for<'a, 'b> Fn(&'a mut RenderCtx<'b>)>(
    store: &RenderStore,
    bodies: &Vec<C>,
    jobs: &Vec<(usize, InstanceId)>,
    clock: RenderClock,
) -> (r: Vec<Asked>)
    requires
        store.wf(),
        forall|k: int| 0 <= k < bodies@.len() ==> ticks(#[trigger] bodies@[k]),
        forall|i: int| 0 <= i < jobs@.len() ==> (#[trigger] jobs@[i]).0 < bodies@.len(),
    ensures
        r@.len() == jobs@.len(),
        forall|i: int|
            #![trigger jobs@[i]]
            0 <= i < jobs@.len() && store.present(jobs@[i].1) ==> exists|c: &mut RenderCtx<'_>|
                {
                    &&& bodies@[jobs@[i].0 as int].ensures((c,), ())
                    &&& #[trigger] (*c).fresh(*store, jobs@[i].1, clock)
                    &&& r@[i].writes@ == final(c).writes_made()
                    &&& r@[i].commands@ == final(c).commands_made()
                },
{
    let mut out: Vec<Asked> = Vec::new();
    let mut i: usize = 0;
    while i < jobs.len()
        invariant
            store.wf(),
            forall|k: int| 0 <= k < bodies@.len() ==> ticks(#[trigger] bodies@[k]),
            forall|k: int| 0 <= k < jobs@.len() ==> (#[trigger] jobs@[k]).0 < bodies@.len(),
            i <= jobs@.len(),
            out@.len() == i,
            forall|k: int|
                #![trigger jobs@[k]]
                0 <= k < i && store.present(jobs@[k].1) ==> exists|c: &mut RenderCtx<'_>|
                    {
                        &&& bodies@[jobs@[k].0 as int].ensures((c,), ())
                        &&& #[trigger] (*c).fresh(*store, jobs@[k].1, clock)
                        &&& out@[k].writes@ == final(c).writes_made()
                        &&& out@[k].commands@ == final(c).commands_made()
                    },
        decreases jobs@.len() - i,
    {
        let (k, inst) = jobs[i];
        assert(jobs@[i as int].0 < bodies@.len());
        let asked = tick_body(store, inst, clock, &bodies[k]);
        out.push(asked);
        i = i + 1;
    }
    out
}

/// Commits what the runs of a frame asked for, in order.
fn commit_all(
    store: &mut RenderStore,
    cs: &Vec<Continuous>,
    jobs: &Vec<(usize, InstanceId)>,
    asked: Vec<Asked>,
    notes: &mut Vec<RenderNote>,
    commands: &mut Vec<RenderLocalCommand>,
)
    requires
        old(store).wf(),
        asked@.len() == jobs@.len(),
        forall|i: int|
            0 <= i < jobs@.len() ==> (#[trigger] jobs@[i]).0 < cs@.len() && old(store).present(
                jobs@[i].1,
            ),
    ensures
        final(store).wf(),
        only_values(*final(store), *old(store)),
        exists|states: Seq<RenderStore>|
            {
                &&& #[trigger] chained(
                    states,
                    scan_insts(jobs@),
                    scan_writes(cs@, jobs@),
                    asked_of(asked@),
                )
                &&& states[0] == *old(store)
                &&& states[jobs@.len() as int] == *final(store)
            },
        final(notes)@ == old(notes)@ + notes_upto(
            scan_insts(jobs@),
            scan_writes(cs@, jobs@),
            asked_of(asked@),
            jobs@.len() as int,
        ),
        final(commands)@ == old(commands)@ + commands_upto(asked_of(asked@), jobs@.len() as int),
{
    let ghost before = *store;
    let ghost notes0 = notes@;
    let ghost commands0 = commands@;
    let ghost insts = scan_insts(jobs@);
    let ghost declared = scan_writes(cs@, jobs@);
    let ghost runs = asked_of(asked@);
    let ghost mut states: Seq<RenderStore> = seq![before];
    let mut rest = asked;
    let mut i: usize = 0;
    proof {
        assert(notes@ =~= notes0 + notes_upto(insts, declared, runs, 0));
        assert(commands@ =~= commands0 + commands_upto(runs, 0));
        lemma_only_values_same(before);
    }
    while i < jobs.len()
        invariant
            insts == scan_insts(jobs@),
            declared == scan_writes(cs@, jobs@),
            runs.len() == jobs@.len() == rest@.len(),
            forall|k: int|
                0 <= k < jobs@.len() ==> (#[trigger] jobs@[k]).0 < cs@.len() && before.present(
                    jobs@[k].1,
                ),
            i <= jobs@.len(),
            forall|k: int| i <= k < rest@.len() ==> (#[trigger] rest@[k])@ == runs[k],
            store.wf(),
            only_values(*store, before),
            states.len() == i + 1,
            states[0] == before,
            states[i as int] == *store,
            forall|k: int|
                0 <= k < i ==> committed(
                    #[trigger] states[k + 1],
                    states[k],
                    insts[k],
                    declared[k],
                    runs[k].writes,
                ),
            notes@ == notes0 + notes_upto(insts, declared, runs, i as int),
            commands@ == commands0 + commands_upto(runs, i as int),
        decreases jobs@.len() - i,
    {
        let (k, inst) = jobs[i];
        let ghost s0 = *store;
        let ghost states0 = states;
        let ghost rest0 = rest@;
        assert(jobs@[i as int].0 < cs@.len());
        assert(rest@[i as int]@ == runs[i as int]);
        let mut writes: Vec<(RFieldId, Value)> = Vec::new();
        let mut cmds: Vec<RenderLocalCommand> = Vec::new();
        core::mem::swap(&mut writes, &mut rest[i].writes);
        core::mem::swap(&mut cmds, &mut rest[i].commands);
        commit_writes(store, inst, &cs[k].writes, writes, notes);
        commands.append(&mut cmds);
        proof {
            states = states.push(*store);
            lemma_only_values_step(*store, s0, before);
            assert forall|j: int| i + 1 <= j < rest@.len() implies (#[trigger] rest@[j])@
                == runs[j] by {
                assert(rest0[j]@ == runs[j]);
            }
            assert(notes@ =~= notes0 + notes_upto(insts, declared, runs, i + 1));
            assert(commands@ =~= commands0 + commands_upto(runs, i + 1));
            assert forall|j: int| 0 <= j < i + 1 implies committed(
                #[trigger] states[j + 1],
                states[j],
                insts[j],
                declared[j],
                runs[j].writes,
            ) by {
                if j < i {
                    assert(states0[j + 1] == states[j + 1] && states0[j] == states[j]);
                }
            }
        }
        i = i + 1;
    }
    proof {
        assert forall|k: int| 0 <= k < insts.len() && !states[0].present(insts[k]) implies (
        #[trigger] runs[k]).writes.len() == 0 && runs[k].commands.len() == 0 by {
            assert(before.present(jobs@[k].1));
        }
        assert(chained(states, insts, declared, runs));
    }
}

pub open spec fn asked_of(a: Seq<Asked>) -> Seq<RunOut> {
    Seq::new(a.len(), |i: int| a[i]@)
}

/// Runs the continuous calculations of a frame and commits what they ask for.
pub fn run_continuous<C: for<'a, 'b> Fn(&'a mut RenderCtx<'b>)>(
    store: &mut RenderStore,
    cs: &Vec<Continuous>,
    bodies: &Vec<C>,
    jobs: &Vec<(usize, InstanceId)>,
    clock: RenderClock,
    notes: &mut Vec<RenderNote>,
    commands: &mut Vec<RenderLocalCommand>,
)
    requires
        old(store).wf(),
        bodies@.len() == cs@.len(),
        forall|k: int| 0 <= k < bodies@.len() ==> ticks(#[trigger] bodies@[k]),
        forall|i: int|
            0 <= i < jobs@.len() ==> (#[trigger] jobs@[i]).0 < cs@.len() && old(store).present(
                jobs@[i].1,
            ),
    ensures
        final(store).wf(),
        only_values(*final(store), *old(store)),
        exists|states: Seq<RenderStore>, runs: Seq<RunOut>|
            {
                &&& #[trigger] chained(states, scan_insts(jobs@), scan_writes(cs@, jobs@), runs)
                &&& states[0] == *old(store)
                &&& states[jobs@.len() as int] == *final(store)
                &&& forall|i: int|
                    #![trigger jobs@[i]]
                    0 <= i < jobs@.len() && old(store).present(jobs@[i].1) ==> exists|c: &mut RenderCtx<'_>|
                        {
                            &&& bodies@[jobs@[i].0 as int].ensures((c,), ())
                            &&& #[trigger] (*c).fresh(*old(store), jobs@[i].1, clock)
                            &&& runs[i].writes == final(c).writes_made()
                            &&& runs[i].commands == final(c).commands_made()
                        }
                &&& final(notes)@ == old(notes)@ + notes_upto(
                    scan_insts(jobs@),
                    scan_writes(cs@, jobs@),
                    runs,
                    jobs@.len() as int,
                )
                &&& final(commands)@ == old(commands)@ + commands_upto(runs, jobs@.len() as int)
            },
{
    let ghost before = *store;
    let asked = tick_all(store, bodies, jobs, clock);
    let ghost runs = asked_of(asked@);
    proof {
        assert forall|i: int|
            #![trigger jobs@[i]]
            0 <= i < jobs@.len() && before.present(jobs@[i].1) implies exists|c: &mut RenderCtx<'_>|
            {
                &&& bodies@[jobs@[i].0 as int].ensures((c,), ())
                &&& #[trigger] (*c).fresh(before, jobs@[i].1, clock)
                &&& runs[i].writes == final(c).writes_made()
                &&& runs[i].commands == final(c).commands_made()
            } by {
            assert(runs[i] == asked@[i]@);
        }
    }
    commit_all(store, cs, jobs, asked, notes, commands);
}

/// Whoever runs is there.
pub proof fn lemma_scans_present(m: Mirror, cs: Seq<Continuous>, n: int)
    requires
        m.wf(),
        0 <= n <= cs.len(),
        forall|k: int| 0 <= k < cs.len() ==> m.store.known((#[trigger] cs[k]).ty),
    ensures
        forall|i: int|
            0 <= i < scans(m, cs, n).len() ==> m.store.present((#[trigger] scans(m, cs, n)[i]).1),
    decreases n,
{
    if n > 0 {
        lemma_scans_present(m, cs, n - 1);
        let ty = cs[n - 1].ty;
        let insts = m.scanned(ty);
        let before = scans(m, cs, n - 1);
        let all = scans(m, cs, n);
        assert(m.store.known(cs[n - 1].ty));
        assert forall|k: int| 0 <= k < insts.len() implies m.store.present(#[trigger] insts[k]) by {
            let culled = match m.spatial {
                Some(sp) => sp.active && sp.culling(ty) is Some,
                None => false,
            };
            if culled {
                let sp = m.spatial->0;
                let s = sp.visible@[bucket_at(sp.visible@, ty)].insts@;
                crate::lists::lemma_kept(s, |i: InstanceId| m.store.present(i));
                assert(insts.contains(insts[k]));
            } else {
                law_live_instances_are_present(m.store, ty);
            }
        }
        assert forall|i: int| 0 <= i < all.len() implies m.store.present((#[trigger] all[i]).1) by {
            if i < before.len() {
                assert(all[i] == before[i]);
            } else {
                assert(all[i].1 == insts[i - before.len()]);
            }
        }
    }
}

}
