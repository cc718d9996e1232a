//! The frames of the render runtime: taking in simulation frames, and render frames.
use crate::entity::InstanceId;
use crate::float64::of_int;
use crate::float64::F64;
use crate::render::clock::elapsed;
use crate::render::clock::unit;
use crate::render::clock::RenderClock;
use crate::render::continuous::build_scans;
use crate::render::continuous::lemma_scans_present;
use crate::render::continuous::run_continuous;
use crate::render::continuous::scan_insts;
use crate::render::continuous::scan_writes;
use crate::render::continuous::scans;
use crate::render::continuous::ticks;
use crate::render::ctx::RenderCtx;
use crate::render::ctx::RenderInput;
use crate::render::ctx::RenderLocalCtx;
use crate::render::handoff::coalesced;
use crate::render::handoff::deltas_of;
use crate::render::handoff::SimFrame;
use crate::render::interp::Elementary;
use crate::lists::kept;
use crate::render::local::LocalStore;
use crate::render::local::RenderLocalCommand;
use crate::render::local::RenderLocalId;
use crate::render::local_run::apply_commands;
use crate::render::local_run::build_local_scans;
use crate::render::local_run::local_chained;
use crate::render::local_run::local_notes_upto;
use crate::render::local_run::local_scans;
use crate::render::local_run::obeyed_all;
use crate::render::local_run::refusals_upto;
use crate::render::local_run::run_local_continuous;
use crate::render::local_run::ticks_local;
use crate::render::mirror::lemma_setup_kept;
use crate::render::mirror::Mirror;
use crate::render::motion::movement_ok;
use crate::render::reaction::all_jobs;
use crate::render::reaction::build_jobs;
use crate::render::reaction::chained;
use crate::render::reaction::commands_upto;
use crate::render::reaction::job_insts;
use crate::render::reaction::job_writes;
use crate::render::reaction::jobs_of;
use crate::render::reaction::notes_upto;
use crate::render::reaction::reaction_jobs;
use crate::render::reaction::reacts;
use crate::render::reaction::run_reactions;
use crate::render::reaction::Job;
use crate::render::reaction::Reaction;
use crate::render::reaction::RunOut;
use crate::render::runtime::RenderRuntime;
use crate::render::store::RenderStore;
use crate::render::writes::only_values;
use crate::render::writes::RenderNote;
use crate::runtime::lifecycle::log_of;
use crate::runtime::lifecycle::WriteModel;
use vstd::prelude::*;

verus! {

/// How a simulation frame was taken in.
pub ghost struct Ingested {
    /// After the births, the changes, and what came to rest.
    pub born: Mirror,
    pub changed: Mirror,
    pub rested: Mirror,
    /// The reactions: the data before each run and after the last, and what each asked for.
    pub jobs: Seq<Job>,
    pub states: Seq<RenderStore>,
    pub runs: Seq<RunOut>,
    /// The local entities before each request and after the last.
    pub locals: Seq<LocalStore>,
}

/// How a render frame went.
pub ghost struct Drawn {
    /// After the interpolation, the fading, and the view.
    pub swept: Mirror,
    pub faded: Mirror,
    pub viewed: Mirror,
    /// The continuous runs.
    pub jobs: Seq<(usize, InstanceId)>,
    pub states: Seq<RenderStore>,
    pub runs: Seq<RunOut>,
    /// Their requests of local entities.
    pub asked: Seq<LocalStore>,
    /// The local runs.
    pub local_jobs: Seq<(usize, RenderLocalId)>,
    pub local_states: Seq<LocalStore>,
    pub local_runs: Seq<RunOut>,
    /// Their requests.
    pub locals: Seq<LocalStore>,
}

impl Ingested {
    /// The data after the reactions.
    pub open spec fn reacted(self) -> Mirror {
        Mirror { store: self.states[self.jobs.len() as int], ..self.rested }
    }

    /// The requests of the reactions.
    pub open spec fn commands(self) -> Seq<RenderLocalCommand> {
        commands_upto(self.runs, self.runs.len() as int)
    }
}

impl Drawn {
    pub open spec fn commands(self) -> Seq<RenderLocalCommand> {
        commands_upto(self.runs, self.runs.len() as int)
    }

    pub open spec fn local_commands(self) -> Seq<RenderLocalCommand> {
        commands_upto(self.local_runs, self.local_runs.len() as int)
    }
}

impl<R, C, L> RenderRuntime<R, C, L> where
    R: for<'a, 'b, 'c> Fn(&'a mut RenderCtx<'b>, &'c RenderInput),
    C: for<'a, 'b> Fn(&'a mut RenderCtx<'b>),
    L: for<'a, 'b> Fn(&'a mut RenderLocalCtx<'b>),
 {
    /// Every body can be run.
    pub open spec fn bodies_callable(self) -> bool {
        &&& forall|k: int|
            0 <= k < self.reaction_bodies@.len() ==> reacts(#[trigger] self.reaction_bodies@[k])
        &&& forall|k: int|
            0 <= k < self.continuous_bodies@.len() ==> ticks(#[trigger] self.continuous_bodies@[k])
        &&& forall|k: int|
            0 <= k < self.local_bodies@.len() ==> ticks_local(#[trigger] self.local_bodies@[k])
    }

    /// The frame's births are of types that are known here, under ids that can be.
    pub open spec fn accepts(self, sf: SimFrame) -> bool {
        forall|k: int|
            0 <= k < sf.births@.len() ==> self.mirror.store.known((#[trigger] sf.births@[k]).ty)
                && sf.births@[k].id < u32::MAX
    }

    pub fn can_ingest(&self, sf: &SimFrame) -> (r: bool)
        ensures
            r == self.accepts(*sf),
    {
        let mut k: usize = 0;
        while k < sf.births.len()
            invariant
                k <= sf.births@.len(),
                forall|j: int|
                    0 <= j < k ==> self.mirror.store.known((#[trigger] sf.births@[j]).ty)
                        && sf.births@[j].id < u32::MAX,
            decreases sf.births@.len() - k,
        {
            if !self.mirror.store.has_type(sf.births[k].ty) || sf.births[k].id == u32::MAX {
                assert(!(self.mirror.store.known(sf.births@[k as int].ty) && sf.births@[k as int].id
                    < u32::MAX));
                return false;
            }
            k = k + 1;
        }
        true
    }

    /// What is registered is as in `other`.
    pub open spec fn same_rules(self, other: RenderRuntime<R, C, L>) -> bool {
        &&& self.mirror.same_setup(other.mirror)
        &&& self.reactions == other.reactions
        &&& self.reaction_bodies == other.reaction_bodies
        &&& self.continuous == other.continuous
        &&& self.continuous_bodies == other.continuous_bodies
        &&& self.owners == other.owners
        &&& self.detect == other.detect
        &&& self.renderables == other.renderables
        &&& self.local.same_schema(other.local)
        &&& self.local_continuous == other.local_continuous
        &&& self.local_bodies == other.local_bodies
        &&& self.local_renderables == other.local_renderables
    }

    /// `self` is `before` with the frame taken in, in the way of `t`: births, changes, rest,
    /// reactions on what the frame wrote, and deaths; then the requests of the reactions.
    pub open spec fn ingested<S, A, H>(
        self,
        before: RenderRuntime<R, C, L>,
        sf: SimFrame,
        math: Elementary<S, A, H>,
        notes: Seq<RenderNote>,
        t: Ingested,
    ) -> bool where S: Fn(F64) -> F64, A: Fn(F64) -> F64, H: Fn(F64, F64) -> F64 {
        let insts = job_insts(jobs_of(t.jobs));
        let declared = job_writes(before.reactions@, jobs_of(t.jobs));
        let n = t.jobs.len() as int;
        &&& self.last_ingested == sf.sim_frame
        &&& self.clock == before.clock
        &&& t.born.after_births(before.mirror, sf.births@)
        &&& t.changed.after_changes(t.born, coalesced(deltas_of(sf.changes@)), sf.births@)
        &&& t.rested.after_sampling(
            t.changed,
            kept(
                t.born.active@,
                |a: (InstanceId, usize)| !t.changed.active@.contains(a),
            ),
            of_int(1),
            math,
        )
        &&& jobs_of(t.jobs) == all_jobs(
            before.reactions@,
            log_of(sf.events@),
            sf.deaths@,
            before.reactions@.len() as int,
        )
        &&& chained(t.states, insts, declared, t.runs)
        &&& t.states[0] == t.rested.store
        &&& self.mirror.after_deaths(t.reacted(), sf.deaths@)
        &&& obeyed_all(t.locals, t.commands())
        &&& t.locals[0] == before.local
        &&& t.locals[t.commands().len() as int] == self.local
        &&& notes == notes_upto(insts, declared, t.runs, n) + refusals_upto(
            t.locals,
            t.commands(),
            t.commands().len() as int,
        )
    }

    /// `self` is `before` after a render frame, in the way of `t`: the clock, interpolation,
    /// fading, the view, and the continuous calculations with what they ask for; then the
    /// calculations of local entities with what those ask for.
    pub open spec fn drawn<S, A, H>(
        self,
        before: RenderRuntime<R, C, L>,
        dt: F64,
        alpha: F64,
        math: Elementary<S, A, H>,
        notes: Seq<RenderNote>,
        t: Drawn,
    ) -> bool where S: Fn(F64) -> F64, A: Fn(F64) -> F64, H: Fn(F64, F64) -> F64 {
        let insts = scan_insts(t.jobs);
        let declared = scan_writes(before.continuous@, t.jobs);
        let n = t.jobs.len() as int;
        let m = t.local_jobs.len() as int;
        &&& self.last_ingested == before.last_ingested
        &&& self.clock == (RenderClock {
            frame: (before.clock.frame + 1) as u64,
            dt: elapsed(dt),
            alpha: unit(alpha),
        })
        &&& t.swept.after_sweep(before.mirror, unit(alpha), math)
        &&& t.faded.after_fading(t.swept, elapsed(dt))
        &&& t.viewed.after_view(t.faded, math)
        &&& t.jobs == scans(t.viewed, before.continuous@, before.continuous@.len() as int)
        &&& chained(t.states, insts, declared, t.runs)
        &&& t.states[0] == t.viewed.store
        &&& self.mirror == (Mirror { store: t.states[n], ..t.viewed })
        &&& obeyed_all(t.asked, t.commands())
        &&& t.asked[0] == before.local
        &&& t.local_jobs == local_scans(
            t.asked[t.commands().len() as int],
            before.local_continuous@,
            before.local_continuous@.len() as int,
        )
        &&& local_chained(t.local_states, before.local_continuous@, t.local_jobs, t.local_runs)
        &&& t.local_states[0] == t.asked[t.commands().len() as int]
        &&& obeyed_all(t.locals, t.local_commands())
        &&& t.locals[0] == t.local_states[m]
        &&& t.locals[t.local_commands().len() as int] == self.local
        &&& notes == notes_upto(insts, declared, t.runs, n) + refusals_upto(
            t.asked,
            t.commands(),
            t.commands().len() as int,
        ) + local_notes_upto(before.local_continuous@, t.local_jobs, t.local_runs, m)
            + refusals_upto(t.locals, t.local_commands(), t.local_commands().len() as int)
    }

    /// Takes in a simulation frame that is newer than the last one; one that is not is passed
    /// over, whatever it holds. What went against declarations is reported.
    pub fn ingest<S, A, H>(&mut self, sf: &SimFrame, math: &Elementary<S, A, H>) -> (r: Vec<
        RenderNote,
    >) where S: Fn(F64) -> F64, A: Fn(F64) -> F64, H: Fn(F64, F64) -> F64
        requires
            old(self).wf(),
            old(self).bodies_callable(),
            math.total(),
            sf.sim_frame > old(self).last_ingested ==> old(self).accepts(*sf),
        ensures
            final(self).wf(),
            final(self).same_rules(*old(self)),
            sf.sim_frame <= old(self).last_ingested ==> *final(self) == *old(self) && r@.len() == 0,
            sf.sim_frame > old(self).last_ingested ==> exists|t: Ingested|
                {
                    &&& #[trigger] final(self).ingested(*old(self), *sf, *math, r@, t)
                    &&& forall|i: int|
                        #![trigger t.jobs[i]]
                        0 <= i < t.jobs.len() && t.rested.store.present(t.jobs[i].inst) ==> exists|
                            c: &mut RenderCtx<'_>,
                        |
                            {
                                &&& #[trigger] old(
                                    self).reaction_bodies@[t.jobs[i].reaction as int].ensures(
                                    (c, &t.jobs[i].input),
                                    (),
                                )
                                &&& (*c).fresh(t.states[i], t.jobs[i].inst, old(self).clock)
                                &&& t.runs[i].writes == final(c).writes_made()
                                &&& t.runs[i].commands == final(c).commands_made()
                            }
                },
    {
        let ghost before = *self;
        let mut notes: Vec<RenderNote> = Vec::new();
        proof {
            lemma_rules_same(before);
        }
        if sf.sim_frame <= self.last_ingested {
            return notes;
        }
        self.mirror.take_births(&sf.births);
        let ghost born = self.mirror;
        let prev = self.mirror.take_changes(&sf.changes, &sf.births);
        let ghost changed = self.mirror;
        proof {
            assert forall|k: int| 0 <= k < prev@.len() implies movement_ok(
                changed.tracks@,
                #[trigger] prev@[k],
            ) by {
                assert(born.active@[k].1 < born.tracks@.len());
            }
        }
        self.mirror.settle(&prev, math);
        let ghost rested = self.mirror;
        let jobs = build_jobs(&self.reactions, &sf.events, &sf.deaths);
        let mut commands: Vec<RenderLocalCommand> = Vec::new();
        proof {
            lemma_jobs_known(
                self.reactions@,
                log_of(sf.events@),
                sf.deaths@,
                self.reactions@.len() as int,
            );
            assert forall|i: int| 0 <= i < jobs@.len() implies (#[trigger] jobs@[i]).reaction
                < self.reactions@.len() by {
                assert(jobs_of(jobs@)[i].reaction < self.reactions@.len());
            }
        }
        run_reactions(
            &mut self.mirror.store,
            &self.reactions,
            &self.reaction_bodies,
            &jobs,
            self.clock,
            &mut notes,
            &mut commands,
        );
        let ghost reacted = self.mirror;
        let ghost insts = job_insts(jobs_of(jobs@));
        let ghost declared = job_writes(self.reactions@, jobs_of(jobs@));
        proof {
            lemma_setup_same(rested, reacted);
            lemma_setup_kept(reacted, rested);
        }
        self.mirror.take_deaths(&sf.deaths);
        self.last_ingested = sf.sim_frame;
        let ghost cmds = commands@;
        let ghost ran = notes@;
        apply_commands(&mut self.local, commands, &mut notes);
        proof {
            let (states, runs) = choose|states: Seq<RenderStore>, runs: Seq<RunOut>|
                {
                    &&& #[trigger] chained(states, insts, declared, runs)
                    &&& states[0] == rested.store
                    &&& states[jobs@.len() as int] == reacted.store
                    &&& forall|i: int|
                        #![trigger jobs@[i]]
                        0 <= i < jobs@.len() && rested.store.present(jobs@[i].inst) ==> exists|
                            c: &mut RenderCtx<'_>,
                        |
                            {
                                &&& #[trigger] before.reaction_bodies@[jobs@[i].reaction as int].ensures(
                                    (c, &jobs@[i].input),
                                    (),
                                )
                                &&& (*c).fresh(states[i], jobs@[i].inst, before.clock)
                                &&& runs[i].writes == final(c).writes_made()
                                &&& runs[i].commands == final(c).commands_made()
                            }
                    &&& ran == Seq::<RenderNote>::empty() + notes_upto(
                        insts,
                        declared,
                        runs,
                        jobs@.len() as int,
                    )
                    &&& cmds == Seq::<RenderLocalCommand>::empty() + commands_upto(
                        runs,
                        jobs@.len() as int,
                    )
                };
            let locals = choose|locals: Seq<LocalStore>|
                {
                    &&& #[trigger] obeyed_all(locals, cmds)
                    &&& locals[0] == before.local
                    &&& locals[cmds.len() as int] == self.local
                    &&& notes@ == ran + refusals_upto(locals, cmds, cmds.len() as int)
                };
            let t = Ingested { born, changed, rested, jobs: jobs@, states, runs, locals };
            assert(cmds =~= t.commands());
            assert(ran =~= notes_upto(insts, declared, runs, jobs@.len() as int));
            assert(t.reacted() == reacted);
            assert(self.ingested(before, *sf, *math, notes@, t));
            lemma_setup_trans(born, before.mirror, before.mirror);
            lemma_setup_trans(changed, born, before.mirror);
            lemma_setup_same(changed, rested);
            lemma_setup_trans(rested, changed, before.mirror);
            lemma_setup_trans(reacted, rested, before.mirror);
            lemma_setup_trans(self.mirror, reacted, before.mirror);
            lemma_rules_kept(*self, before);
        }
        notes
    }

    /// Draws a render frame: the clock advances, what moves is interpolated, the dead fade,
    /// the view is computed, and the continuous calculations run.
    pub fn render_frame<S, A, H>(
        &mut self,
        dt: F64,
        alpha: F64,
        math: &Elementary<S, A, H>,
    ) -> (r: Vec<RenderNote>) where S: Fn(F64) -> F64, A: Fn(F64) -> F64, H: Fn(F64, F64) -> F64
        requires
            old(self).wf(),
            old(self).bodies_callable(),
            old(self).clock.frame < u64::MAX,
            math.total(),
        ensures
            final(self).wf(),
            final(self).same_rules(*old(self)),
            exists|t: Drawn|
                {
                    &&& #[trigger] final(self).drawn(*old(self), dt, alpha, *math, r@, t)
                    &&& forall|i: int|
                        #![trigger t.jobs[i]]
                        0 <= i < t.jobs.len() && t.viewed.store.present(t.jobs[i].1) ==> exists|
                            c: &mut RenderCtx<'_>,
                        |
                            {
                                &&& old(self).continuous_bodies@[t.jobs[i].0 as int].ensures(
                                    (c,),
                                    (),
                                )
                                &&& #[trigger] (*c).fresh(
                                    t.viewed.store,
                                    t.jobs[i].1,
                                    final(self).clock,
                                )
                                &&& t.runs[i].writes == final(c).writes_made()
                                &&& t.runs[i].commands == final(c).commands_made()
                            }
                    &&& forall|i: int|
                        #![trigger t.local_jobs[i]]
                        0 <= i < t.local_jobs.len() && t.local_jobs[i].0 < old(
                            self).local_bodies@.len() ==> exists|c: &mut RenderLocalCtx<'_>|
                            {
                                &&& old(self).local_bodies@[t.local_jobs[i].0 as int].ensures(
                                    (c,),
                                    (),
                                )
                                &&& #[trigger] (*c).fresh(
                                    t.local_states[0],
                                    t.local_jobs[i].1,
                                    final(self).clock,
                                )
                                &&& t.local_runs[i].writes == final(c).writes_made()
                                &&& t.local_runs[i].commands == final(c).commands_made()
                            }
                },
    {
        let ghost before = *self;
        let mut notes: Vec<RenderNote> = Vec::new();
        self.clock.begin_frame(dt, alpha);
        let clock = self.clock;
        self.mirror.sweep(clock.alpha, math);
        let ghost swept = self.mirror;
        self.mirror.advance_dying(clock.dt);
        let ghost faded = self.mirror;
        self.mirror.compute_visible(math);
        let ghost viewed = self.mirror;
        proof {
            lemma_swept_setup(swept, before.mirror, clock.alpha, *math);
            lemma_setup_trans(faded, swept, before.mirror);
            lemma_setup_trans(viewed, faded, before.mirror);
            assert forall|k: int| 0 <= k < self.continuous@.len() implies viewed.store.known(
                (#[trigger] self.continuous@[k]).ty,
            ) by {
                assert(before.mirror.store.known(before.continuous@[k].ty));
            }
            lemma_scans_present(viewed, self.continuous@, self.continuous@.len() as int);
        }
        let jobs = build_scans(&self.mirror, &self.continuous);
        let mut commands: Vec<RenderLocalCommand> = Vec::new();
        proof {
            assert forall|i: int| 0 <= i < jobs@.len() implies (#[trigger] jobs@[i]).0
                < self.continuous@.len() && viewed.store.present(jobs@[i].1) by {
                assert(viewed.store.present(
                    scans(viewed, self.continuous@, self.continuous@.len() as int)[i].1,
                ));
            }
        }
        run_continuous(
            &mut self.mirror.store,
            &self.continuous,
            &self.continuous_bodies,
            &jobs,
            clock,
            &mut notes,
            &mut commands,
        );
        let ghost ticked = self.mirror;
        let ghost insts = scan_insts(jobs@);
        let ghost declared = scan_writes(self.continuous@, jobs@);
        let ghost cmds = commands@;
        let ghost n1 = notes@;
        proof {
            lemma_setup_same(viewed, ticked);
            lemma_setup_kept(ticked, viewed);
            lemma_setup_trans(ticked, viewed, before.mirror);
        }
        apply_commands(&mut self.local, commands, &mut notes);
        let ghost local1 = self.local;
        let ghost n2 = notes@;
        let local_jobs = build_local_scans(&self.local, &self.local_continuous);
        let mut local_commands: Vec<RenderLocalCommand> = Vec::new();
        run_local_continuous(
            &mut self.local,
            &self.local_continuous,
            &self.local_bodies,
            &local_jobs,
            clock,
            &mut notes,
            &mut local_commands,
        );
        let ghost local2 = self.local;
        let ghost n3 = notes@;
        let ghost cmds2 = local_commands@;
        apply_commands(&mut self.local, local_commands, &mut notes);
        proof {
            let (states, runs) = choose|states: Seq<RenderStore>, runs: Seq<RunOut>|
                {
                    &&& #[trigger] chained(states, insts, declared, runs)
                    &&& states[0] == viewed.store
                    &&& states[jobs@.len() as int] == ticked.store
                    &&& forall|i: int|
                        #![trigger jobs@[i]]
                        0 <= i < jobs@.len() && viewed.store.present(jobs@[i].1) ==> exists|
                            c: &mut RenderCtx<'_>,
                        |
                            {
                                &&& before.continuous_bodies@[jobs@[i].0 as int].ensures((c,), ())
                                &&& #[trigger] (*c).fresh(viewed.store, jobs@[i].1, clock)
                                &&& runs[i].writes == final(c).writes_made()
                                &&& runs[i].commands == final(c).commands_made()
                            }
                    &&& n1 == Seq::<RenderNote>::empty() + notes_upto(
                        insts,
                        declared,
                        runs,
                        jobs@.len() as int,
                    )
                    &&& cmds == Seq::<RenderLocalCommand>::empty() + commands_upto(
                        runs,
                        jobs@.len() as int,
                    )
                };
            let asked = choose|asked: Seq<LocalStore>|
                {
                    &&& #[trigger] obeyed_all(asked, cmds)
                    &&& asked[0] == before.local
                    &&& asked[cmds.len() as int] == local1
                    &&& n2 == n1 + refusals_upto(asked, cmds, cmds.len() as int)
                };
            let (local_states, local_runs) = choose|
                local_states: Seq<LocalStore>,
                local_runs: Seq<RunOut>,
            |
                {
                    &&& #[trigger] local_chained(
                        local_states,
                        before.local_continuous@,
                        local_jobs@,
                        local_runs,
                    )
                    &&& local_states[0] == local1
                    &&& local_states[local_jobs@.len() as int] == local2
                    &&& forall|i: int|
                        #![trigger local_jobs@[i]]
                        0 <= i < local_jobs@.len() && local_jobs@[i].0
                            < before.local_bodies@.len() ==> exists|c: &mut RenderLocalCtx<'_>|
                            {
                                &&& before.local_bodies@[local_jobs@[i].0 as int].ensures((c,), ())
                                &&& #[trigger] (*c).fresh(local1, local_jobs@[i].1, clock)
                                &&& local_runs[i].writes == final(c).writes_made()
                                &&& local_runs[i].commands == final(c).commands_made()
                            }
                    &&& n3 == n2 + local_notes_upto(
                        before.local_continuous@,
                        local_jobs@,
                        local_runs,
                        local_jobs@.len() as int,
                    )
                    &&& cmds2 == Seq::<RenderLocalCommand>::empty() + commands_upto(
                        local_runs,
                        local_jobs@.len() as int,
                    )
                };
            let locals = choose|locals: Seq<LocalStore>|
                {
                    &&& #[trigger] obeyed_all(locals, cmds2)
                    &&& locals[0] == local2
                    &&& locals[cmds2.len() as int] == self.local
                    &&& notes@ == n3 + refusals_upto(locals, cmds2, cmds2.len() as int)
                };
            let t = Drawn {
                swept,
                faded,
                viewed,
                jobs: jobs@,
                states,
                runs,
                asked,
                local_jobs: local_jobs@,
                local_states,
                local_runs,
                locals,
            };
            assert(cmds =~= t.commands());
            assert(cmds2 =~= t.local_commands());
            assert(n1 =~= notes_upto(insts, declared, runs, jobs@.len() as int));
            assert(self.drawn(before, dt, alpha, *math, notes@, t));
            lemma_local_schema(local1, before.local, local2, self.local);
            lemma_rules_kept(*self, before);
        }
        notes
    }
}

proof fn lemma_local_schema(a: LocalStore, start: LocalStore, b: LocalStore, end: LocalStore)
    requires
        a.same_schema(start),
        b.same_schema(a) || b == a,
        end.same_schema(b),
    ensures
        end.same_schema(start),
{
    assert forall|t: int| 0 <= t < end.types@.len() implies (#[trigger] end.types@[t]).same_schema(
        start.types@[t],
    ) by {
        assert(b.types@[t].same_schema(a.types@[t]));
        assert(a.types@[t].same_schema(start.types@[t]));
    }
}

proof fn lemma_swept_setup<S, A, H>(a: Mirror, b: Mirror, alpha: F64, math: Elementary<S, A, H>) where
    S: Fn(F64) -> F64,
    A: Fn(F64) -> F64,
    H: Fn(F64, F64) -> F64,

    requires
        a.after_sweep(b, alpha, math),
    ensures
        a.same_setup(b),
{
}

/// The mirrors differ in the values of render fields alone.
proof fn lemma_setup_same(a: Mirror, b: Mirror)
    requires
        b == (Mirror { store: b.store, ..a }),
        only_values(b.store, a.store),
    ensures
        b.same_setup(a),
{
}

proof fn lemma_setup_trans(a: Mirror, b: Mirror, c: Mirror)
    requires
        a.same_setup(b),
        b.same_setup(c) || b == c,
    ensures
        a.same_setup(c),
{
    assert forall|t: int| 0 <= t < a.store.types@.len() implies (
    #[trigger] a.store.types@[t]).same_schema(c.store.types@[t]) by {
        assert(a.store.types@[t].same_schema(b.store.types@[t]));
    }
}

proof fn lemma_jobs_known(
    rs: Seq<Reaction>,
    log: Seq<WriteModel>,
    deaths: Seq<InstanceId>,
    n: int,
)
    requires
        0 <= n <= rs.len() <= u32::MAX,
    ensures
        forall|i: int|
            0 <= i < all_jobs(rs, log, deaths, n).len() ==> (
            #[trigger] all_jobs(rs, log, deaths, n)[i]).reaction < n,
    decreases n,
{
    if n > 0 {
        lemma_jobs_known(rs, log, deaths, n - 1);
        let before = all_jobs(rs, log, deaths, n - 1);
        let mine = reaction_jobs(rs[n - 1], (n - 1) as usize, log, deaths);
        let all = all_jobs(rs, log, deaths, n);
        assert forall|i: int| 0 <= i < all.len() implies (#[trigger] all[i]).reaction < n by {
            if i < before.len() {
                assert(all[i] == before[i]);
            } else {
                assert(all[i] == mine[i - before.len()]);
            }
        }
    }
}

pub proof fn lemma_rules_same<R, C, L>(a: RenderRuntime<R, C, L>) where
    R: for<'a, 'b, 'c> Fn(&'a mut RenderCtx<'b>, &'c RenderInput),
    C: for<'a, 'b> Fn(&'a mut RenderCtx<'b>),
    L: for<'a, 'b> Fn(&'a mut RenderLocalCtx<'b>),

    ensures
        a.same_rules(a),
{
    assert forall|t: int| 0 <= t < a.mirror.store.types@.len() implies (
    #[trigger] a.mirror.store.types@[t]).same_schema(a.mirror.store.types@[t]) by {}
    assert forall|t: int| 0 <= t < a.local.types@.len() implies (
    #[trigger] a.local.types@[t]).same_schema(a.local.types@[t]) by {}
}

/// A runtime with other instances is still in order.
proof fn lemma_rules_kept<R, C, L>(a: RenderRuntime<R, C, L>, b: RenderRuntime<R, C, L>) where
    R: for<'a, 'b, 'c> Fn(&'a mut RenderCtx<'b>, &'c RenderInput),
    C: for<'a, 'b> Fn(&'a mut RenderCtx<'b>),
    L: for<'a, 'b> Fn(&'a mut RenderLocalCtx<'b>),

    requires
        b.wf(),
        a.mirror.wf(),
        a.local.wf(),
        a.same_rules(b),
    ensures
        a.wf(),
{
    assert forall|k: int| 0 <= k < a.owners.claims@.len() implies a.mirror.store.field_known(
        (#[trigger] a.owners.claims@[k]).ty,
        a.owners.claims@[k].field,
    ) by {
        let c = b.owners.claims@[k];
        assert(b.mirror.store.field_known(c.ty, c.field));
        assert(a.mirror.store.types@[c.ty.0 as int].same_schema(
            b.mirror.store.types@[c.ty.0 as int],
        ));
    }
    assert forall|k: int| 0 <= k < a.continuous@.len() implies a.mirror.store.known(
        (#[trigger] a.continuous@[k]).ty,
    ) by {
        assert(b.mirror.store.known(b.continuous@[k].ty));
    }
    assert forall|k: int| 0 <= k < a.renderables@.len() implies a.mirror.store.known(
        (#[trigger] a.renderables@[k]).0,
    ) by {
        assert(b.mirror.store.known(b.renderables@[k].0));
    }
    assert forall|k: int, p: int|
        #![trigger a.reactions@[k].projs@[p]]
        0 <= k < a.reactions@.len() && 0 <= p < a.reactions@[k].projs@.len() implies
        crate::render::reaction::proj_ok(a.reactions@[k].projs@[p]) by {
        assert(crate::render::reaction::proj_ok(b.reactions@[k].projs@[p]));
    }
}

pub proof fn lemma_rules_trans<R, C, L>(
    a: RenderRuntime<R, C, L>,
    b: RenderRuntime<R, C, L>,
    c: RenderRuntime<R, C, L>,
) where
    R: for<'a, 'b, 'c> Fn(&'a mut RenderCtx<'b>, &'c RenderInput),
    C: for<'a, 'b> Fn(&'a mut RenderCtx<'b>),
    L: for<'a, 'b> Fn(&'a mut RenderLocalCtx<'b>),

    requires
        a.same_rules(b),
        b.same_rules(c),
    ensures
        a.same_rules(c),
{
    lemma_setup_trans(a.mirror, b.mirror, c.mirror);
    lemma_local_schema(b.local, c.local, b.local, a.local);
}

}
