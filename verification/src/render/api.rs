//! The rest of the render runtime: following a publisher, handing over what is drawn, local
//! entities, and what can be looked at.
use crate::entity::InstanceId;
use crate::float64::F64;
use crate::render::clock::RenderClock;
use crate::render::ctx::RenderCtx;
use crate::render::ctx::RenderInput;
use crate::render::ctx::RenderLocalCtx;
use crate::render::frame::Drawn;
use crate::render::frame::Ingested;
use crate::render::handoff::Publisher;
use crate::render::handoff::SimFrame;
use crate::render::interp::Elementary;
use crate::render::runtime::RenderRuntime;
use crate::render::store::RFieldId;
use crate::render::submission::all_packets;
use crate::render::submission::assemble;
use crate::render::submission::packets_of;
use crate::render::submission::Bucket;
use crate::render::submission::SubmissionView;
use crate::render::writes::RenderNote;
use crate::value::Value;
use vstd::prelude::*;

verus! {

/// The newest frame after some were taken in.
pub open spec fn newest(last: u64, frames: Seq<SimFrame>, n: int) -> u64
    decreases n,
{
    if n <= 0 {
        last
    } else {
        let before = newest(last, frames, n - 1);
        if frames[n - 1].sim_frame > before {
            frames[n - 1].sim_frame
        } else {
            before
        }
    }
}

impl<R, C, L> RenderRuntime<R, C, L> where
    R: for<'a, 'b, 'c> Fn(&'a mut RenderCtx<'b>, &'c RenderInput),
    C: for<'a, 'b> Fn(&'a mut RenderCtx<'b>),
    L: for<'a, 'b> Fn(&'a mut RenderLocalCtx<'b>),
 {
    /// What is in view, where the camera has a view.
    pub open spec fn in_view(self) -> Option<Seq<Bucket>> {
        match self.mirror.spatial {
            Some(sp) => if sp.active {
                Some(sp.visible@)
            } else {
                None
            },
            None => None,
        }
    }

    /// What the frame hands over to a renderer: a packet for each instance that is there, in
    /// view, and not hidden.
    pub fn submit(&self) -> (r: SubmissionView)
        requires
            self.wf(),
        ensures
            packets_of(r.packets@) == all_packets(
                self.mirror.store,
                self.renderables@,
                self.in_view(),
                self.renderables@.len() as int,
            ),
    {
        let visible: Option<&Vec<Bucket>> = match &self.mirror.spatial {
            Some(sp) => if sp.active {
                Some(&sp.visible)
            } else {
                None
            },
            None => None,
        };
        assemble(&self.mirror.store, &self.renderables, visible)
    }

    /// A render field of an instance.
    pub fn read(&self, inst: InstanceId, f: RFieldId) -> (r: Value)
        requires
            self.wf(),
        ensures
            r@ == self.mirror.store.value(inst, f),
    {
        self.mirror.store.read_render(inst, f)
    }

    /// The instance is on the render side: alive in the simulation, or fading.
    pub fn is_present(&self, inst: InstanceId) -> (r: bool)
        ensures
            r == self.mirror.store.present(inst),
    {
        self.mirror.store.is_present(inst)
    }

    pub fn clock(&self) -> (r: RenderClock)
        ensures
            r == self.clock,
    {
        self.clock
    }

    /// The last simulation frame that was taken in.
    pub fn last_ingested(&self) -> (r: u64)
        ensures
            r == self.last_ingested,
    {
        self.last_ingested
    }

    /// The number of tracked fields that move.
    pub fn active_count(&self) -> (r: usize)
        ensures
            r == self.mirror.active@.len(),
    {
        self.mirror.active.len()
    }

    /// The number of the dead that fade.
    pub fn dying_count(&self) -> (r: usize)
        ensures
            r == self.mirror.dying@.len(),
    {
        self.mirror.dying.len()
    }

    /// Takes in the frames from the `k`-th on, in order.
    fn follow<S, A, H>(
        &mut self,
        frames: &Vec<SimFrame>,
        k: usize,
        math: &Elementary<S, A, H>,
        out: &mut Vec<RenderNote>,
    ) where S: Fn(F64) -> F64, A: Fn(F64) -> F64, H: Fn(F64, F64) -> F64
        requires
            k <= frames@.len(),
            old(self).wf(),
            old(self).bodies_callable(),
            math.total(),
            forall|j: int|
                k <= j < frames@.len() && #[trigger] due(
                    frames@,
                    k as int,
                    j,
                    old(self).last_ingested,
                ) ==> old(self).accepts(frames@[j]),
        ensures
            final(self).wf(),
            final(self).same_rules(*old(self)),
            final(self).clock == old(self).clock,
            exists|rts: Seq<RenderRuntime<R, C, L>>, notes: Seq<Seq<RenderNote>>, gs: Seq<Ingested>|
                {
                    &&& #[trigger] followed(rts, frames@.skip(k as int), *math, notes, gs)
                    &&& rts[0] == *old(self)
                    &&& rts[gs.len() as int] == *final(self)
                    &&& forall|j: int, i: int|
                        #![trigger gs[j].jobs[i]]
                        0 <= j < gs.len() && frames@.skip(k as int)[j].sim_frame
                            > rts[j].last_ingested && 0 <= i < gs[j].jobs.len()
                            && gs[j].rested.store.present(gs[j].jobs[i].inst) ==> exists|
                            c: &mut RenderCtx<'_>,
                        |
                            {
                                &&& #[trigger] old(
                                    self).reaction_bodies@[gs[j].jobs[i].reaction as int].ensures(
                                    (c, &gs[j].jobs[i].input),
                                    (),
                                )
                                &&& (*c).fresh(
                                    gs[j].states[i],
                                    gs[j].jobs[i].inst,
                                    old(self).clock,
                                )
                                &&& gs[j].runs[i].writes == final(c).writes_made()
                                &&& gs[j].runs[i].commands == final(c).commands_made()
                            }
                    &&& final(out)@ == old(out)@ + joined(notes)
                },
        decreases frames@.len() - k,
    {
        let ghost before = *self;
        let ghost out0 = out@;
        let ghost all = frames@.skip(k as int);
        if k == frames.len() {
            proof {
                let rts = seq![before];
                let gs: Seq<Ingested> = Seq::empty();
                let notes: Seq<Seq<RenderNote>> = Seq::empty();
                crate::render::frame::lemma_rules_same(before);
                assert(followed(rts, all, *math, notes, gs));
                assert(out@ =~= out0 + joined(notes));
            }
            return;
        }
        assert(due(frames@, k as int, k as int, before.last_ingested)
            == (frames@[k as int].sim_frame > before.last_ingested));
        let mut said = self.ingest(&frames[k], math);
        let ghost line = said@;
        let ghost mid = *self;
        out.append(&mut said);
        proof {
            assert forall|j: int|
                k + 1 <= j < frames@.len() && #[trigger] due(
                    frames@,
                    k + 1,
                    j,
                    mid.last_ingested,
                ) implies mid.accepts(frames@[j]) by {
                assert(due(frames@, k as int, j, before.last_ingested));
                assert(before.accepts(frames@[j]));
                assert forall|b: int| 0 <= b < frames@[j].births@.len() implies
                    mid.mirror.store.known((#[trigger] frames@[j].births@[b]).ty)
                    && frames@[j].births@[b].id < u32::MAX by {
                    assert(before.mirror.store.known(frames@[j].births@[b].ty));
                }
            }
            assert(mid.bodies_callable());
        }
        self.follow(frames, k + 1, math, out);
        proof {
            let rest = frames@.skip(k + 1);
            assert(all[0] == frames@[k as int]);
            assert forall|j: int| 0 <= j < rest.len() implies rest[j] == all[j + 1] by {}
            let g = if all[0].sim_frame > before.last_ingested {
                choose|g: Ingested|
                    {
                        &&& #[trigger] mid.ingested(before, all[0], *math, line, g)
                        &&& forall|i: int|
                            #![trigger g.jobs[i]]
                            0 <= i < g.jobs.len() && g.rested.store.present(
                                g.jobs[i].inst,
                            ) ==> exists|c: &mut RenderCtx<'_>|
                                {
                                    &&& #[trigger] before.reaction_bodies@[g.jobs[i].reaction as int].ensures(
                                        (c, &g.jobs[i].input),
                                        (),
                                    )
                                    &&& (*c).fresh(g.states[i], g.jobs[i].inst, before.clock)
                                    &&& g.runs[i].writes == final(c).writes_made()
                                    &&& g.runs[i].commands == final(c).commands_made()
                                }
                    }
            } else {
                arbitrary()
            };
            let (rts1, notes1, gs1) = choose|
                rts1: Seq<RenderRuntime<R, C, L>>,
                notes1: Seq<Seq<RenderNote>>,
                gs1: Seq<Ingested>,
            |
                {
                    &&& #[trigger] followed(rts1, rest, *math, notes1, gs1)
                    &&& rts1[0] == mid
                    &&& rts1[gs1.len() as int] == *self
                    &&& forall|j: int, i: int|
                        #![trigger gs1[j].jobs[i]]
                        0 <= j < gs1.len() && rest[j].sim_frame > rts1[j].last_ingested && 0 <= i
                            < gs1[j].jobs.len() && gs1[j].rested.store.present(
                            gs1[j].jobs[i].inst,
                        ) ==> exists|c: &mut RenderCtx<'_>|
                            {
                                &&& #[trigger] before.reaction_bodies@[gs1[j].jobs[i].reaction as int].ensures(
                                    (c, &gs1[j].jobs[i].input),
                                    (),
                                )
                                &&& (*c).fresh(gs1[j].states[i], gs1[j].jobs[i].inst, before.clock)
                                &&& gs1[j].runs[i].writes == final(c).writes_made()
                                &&& gs1[j].runs[i].commands == final(c).commands_made()
                            }
                    &&& out@ == out0 + line + joined(notes1)
                };
            let rts = seq![before] + rts1;
            let notes = seq![line] + notes1;
            let gs = seq![g] + gs1;
            lemma_joined_first(line, notes1);
            assert(out@ =~= out0 + joined(notes));
            assert(step_taken(before, mid, all[0], *math, line, g));
            assert forall|j: int| 0 <= j < all.len() implies step_taken(
                rts[j],
                #[trigger] rts[j + 1],
                all[j],
                *math,
                notes[j],
                gs[j],
            ) by {
                if j > 0 {
                    assert(rts1[j - 1 + 1] == rts[j + 1] && rts1[j - 1] == rts[j] && notes1[j - 1]
                        == notes[j] && gs1[j - 1] == gs[j] && rest[j - 1] == all[j]);
                }
            }
            assert(followed(rts, all, *math, notes, gs));
            assert forall|j: int, i: int|
                #![trigger gs[j].jobs[i]]
                0 <= j < gs.len() && all[j].sim_frame > rts[j].last_ingested && 0 <= i
                    < gs[j].jobs.len() && gs[j].rested.store.present(
                    gs[j].jobs[i].inst,
                ) implies exists|c: &mut RenderCtx<'_>|
                {
                    &&& #[trigger] before.reaction_bodies@[gs[j].jobs[i].reaction as int].ensures(
                        (c, &gs[j].jobs[i].input),
                        (),
                    )
                    &&& (*c).fresh(gs[j].states[i], gs[j].jobs[i].inst, before.clock)
                    &&& gs[j].runs[i].writes == final(c).writes_made()
                    &&& gs[j].runs[i].commands == final(c).commands_made()
                } by {
                if j > 0 {
                    assert(rts1[j - 1] == rts[j] && gs1[j - 1] == gs[j] && rest[j - 1] == all[j]);
                    assert(gs1[j - 1].jobs[i] == gs[j].jobs[i]);
                } else {
                    assert(g.jobs[i] == gs[j].jobs[i]);
                }
            }
            crate::render::frame::lemma_rules_trans(*self, mid, before);
        }
    }

    /// Takes every published frame, in order, and draws a render frame.
    pub fn sync<S, A, H>(
        &mut self,
        publisher: &mut Publisher,
        dt: F64,
        alpha: F64,
        math: &Elementary<S, A, H>,
    ) -> (r: Vec<RenderNote>) where S: Fn(F64) -> F64, A: Fn(F64) -> F64, H: Fn(F64, F64) -> F64
        requires
            old(self).wf(),
            old(self).bodies_callable(),
            old(self).clock.frame < u64::MAX,
            math.total(),
            forall|k: int|
                0 <= k < old(publisher).queue@.len() && #[trigger] due(
                    old(publisher).queue@,
                    0,
                    k,
                    old(self).last_ingested,
                ) ==> old(self).accepts(old(publisher).queue@[k]),
        ensures
            final(self).wf(),
            final(self).same_rules(*old(self)),
            final(publisher).queue@.len() == 0,
            final(publisher).tracked_fields == old(publisher).tracked_fields,
            final(self).last_ingested == newest(
                old(self).last_ingested,
                old(publisher).queue@,
                old(publisher).queue@.len() as int,
            ),
            exists|
                rts: Seq<RenderRuntime<R, C, L>>,
                notes: Seq<Seq<RenderNote>>,
                gs: Seq<Ingested>,
                t: Drawn,
                last: Seq<RenderNote>,
            |
                {
                    &&& #[trigger] followed(rts, old(publisher).queue@, *math, notes, gs)
                    &&& rts[0] == *old(self)
                    &&& forall|k: int, i: int|
                        #![trigger gs[k].jobs[i]]
                        0 <= k < gs.len() && old(publisher).queue@[k].sim_frame
                            > rts[k].last_ingested && 0 <= i < gs[k].jobs.len()
                            && gs[k].rested.store.present(gs[k].jobs[i].inst) ==> exists|
                            c: &mut RenderCtx<'_>,
                        |
                            {
                                &&& #[trigger] old(
                                    self).reaction_bodies@[gs[k].jobs[i].reaction as int].ensures(
                                    (c, &gs[k].jobs[i].input),
                                    (),
                                )
                                &&& (*c).fresh(
                                    gs[k].states[i],
                                    gs[k].jobs[i].inst,
                                    old(self).clock,
                                )
                                &&& gs[k].runs[i].writes == final(c).writes_made()
                                &&& gs[k].runs[i].commands == final(c).commands_made()
                            }
                    &&& #[trigger] final(self).drawn(
                        rts[gs.len() as int],
                        dt,
                        alpha,
                        *math,
                        last,
                        t,
                    )
                    &&& forall|i: int|
                        #![trigger t.jobs[i]]
                        0 <= i < t.jobs.len() && t.viewed.store.present(t.jobs[i].1) ==> exists|
                            c: &mut RenderCtx<'_>,
                        |
                            {
                                &&& old(self).continuous_bodies@[t.jobs[i].0 as int].ensures(
                                    (c,),
                                    (),
                                )
                                &&& #[trigger] (*c).fresh(
                                    t.viewed.store,
                                    t.jobs[i].1,
                                    final(self).clock,
                                )
                                &&& t.runs[i].writes == final(c).writes_made()
                                &&& t.runs[i].commands == final(c).commands_made()
                            }
                    &&& forall|i: int|
                        #![trigger t.local_jobs[i]]
                        0 <= i < t.local_jobs.len() && t.local_jobs[i].0 < old(
                            self).local_bodies@.len() ==> exists|c: &mut RenderLocalCtx<'_>|
                            {
                                &&& old(self).local_bodies@[t.local_jobs[i].0 as int].ensures(
                                    (c,),
                                    (),
                                )
                                &&& #[trigger] (*c).fresh(
                                    t.local_states[0],
                                    t.local_jobs[i].1,
                                    final(self).clock,
                                )
                                &&& t.local_runs[i].writes == final(c).writes_made()
                                &&& t.local_runs[i].commands == final(c).commands_made()
                            }
                    &&& r@ == joined(notes) + last
                },
    {
        let ghost before = *self;
        let ghost all = publisher.queue@;
        let frames = publisher.drain();
        let mut out: Vec<RenderNote> = Vec::new();
        self.follow(&frames, 0, math, &mut out);
        let ghost mid = *self;
        let ghost out0 = out@;
        assert(frames@.skip(0) =~= all);
        assert(self.bodies_callable());
        let mut said = self.render_frame(dt, alpha, math);
        let ghost line = said@;
        out.append(&mut said);
        proof {
            crate::render::frame::lemma_rules_trans(*self, mid, before);
            let (rts, notes0, gs) = choose|
                rts: Seq<RenderRuntime<R, C, L>>,
                notes0: Seq<Seq<RenderNote>>,
                gs: Seq<Ingested>,
            |
                {
                    &&& #[trigger] followed(rts, all, *math, notes0, gs)
                    &&& rts[0] == before
                    &&& rts[gs.len() as int] == mid
                    &&& forall|j: int, i: int|
                        #![trigger gs[j].jobs[i]]
                        0 <= j < gs.len() && all[j].sim_frame > rts[j].last_ingested && 0 <= i
                            < gs[j].jobs.len() && gs[j].rested.store.present(
                            gs[j].jobs[i].inst,
                        ) ==> exists|c: &mut RenderCtx<'_>|
                            {
                                &&& #[trigger] before.reaction_bodies@[gs[j].jobs[i].reaction as int].ensures(
                                    (c, &gs[j].jobs[i].input),
                                    (),
                                )
                                &&& (*c).fresh(gs[j].states[i], gs[j].jobs[i].inst, before.clock)
                                &&& gs[j].runs[i].writes == final(c).writes_made()
                                &&& gs[j].runs[i].commands == final(c).commands_made()
                            }
                    &&& out0 == Seq::<RenderNote>::empty() + joined(notes0)
                };
            assert(out@ =~= joined(notes0) + line);
            lemma_newest(rts, all, *math, notes0, gs, all.len() as int);
        }
        out
    }
}

/// The last frame that was taken in is the newest one.
proof fn lemma_newest<R, C, L, S, A, H>(
    rts: Seq<RenderRuntime<R, C, L>>,
    frames: Seq<SimFrame>,
    math: Elementary<S, A, H>,
    notes: Seq<Seq<RenderNote>>,
    gs: Seq<Ingested>,
    n: int,
) where
    R: for<'a, 'b, 'c> Fn(&'a mut RenderCtx<'b>, &'c RenderInput),
    C: for<'a, 'b> Fn(&'a mut RenderCtx<'b>),
    L: for<'a, 'b> Fn(&'a mut RenderLocalCtx<'b>),
    S: Fn(F64) -> F64,
    A: Fn(F64) -> F64,
    H: Fn(F64, F64) -> F64,

    requires
        followed(rts, frames, math, notes, gs),
        0 <= n <= frames.len(),
    ensures
        rts[n].last_ingested == newest(rts[0].last_ingested, frames, n),
    decreases n,
{
    if n > 0 {
        lemma_newest(rts, frames, math, notes, gs, n - 1);
        assert(step_taken(rts[n - 1], rts[n - 1 + 1], frames[n - 1], math, notes[n - 1], gs[n - 1]));
    }
}

proof fn lemma_joined_first(line: Seq<RenderNote>, rest: Seq<Seq<RenderNote>>)
    ensures
        joined(seq![line] + rest) == line + joined(rest),
    decreases rest.len(),
{
    let all = seq![line] + rest;
    if rest.len() == 0 {
        assert(all.drop_last() =~= Seq::empty());
        assert(all.last() == line);
        assert(joined(all.drop_last()) =~= Seq::empty());
        assert(joined(all) =~= line + joined(rest));
    } else {
        assert(all.drop_last() =~= seq![line] + rest.drop_last());
        assert(all.last() == rest.last());
        lemma_joined_first(line, rest.drop_last());
        assert(joined(all) =~= line + joined(rest));
    }
}

/// Notes, one list after the other.
pub open spec fn joined(notes: Seq<Seq<RenderNote>>) -> Seq<RenderNote>
    decreases notes.len(),
{
    if notes.len() == 0 {
        Seq::empty()
    } else {
        joined(notes.drop_last()) + notes.last()
    }
}

/// `after` is `before` with the frame taken in; a frame that is not newer than the last one
/// changes nothing.
pub open spec fn step_taken<R, C, L, S, A, H>(
    before: RenderRuntime<R, C, L>,
    after: RenderRuntime<R, C, L>,
    frame: SimFrame,
    math: Elementary<S, A, H>,
    notes: Seq<RenderNote>,
    g: Ingested,
) -> bool where
    R: for<'a, 'b, 'c> Fn(&'a mut RenderCtx<'b>, &'c RenderInput),
    C: for<'a, 'b> Fn(&'a mut RenderCtx<'b>),
    L: for<'a, 'b> Fn(&'a mut RenderLocalCtx<'b>),
    S: Fn(F64) -> F64,
    A: Fn(F64) -> F64,
    H: Fn(F64, F64) -> F64,
 {
    if frame.sim_frame <= before.last_ingested {
        after == before && notes.len() == 0
    } else {
        after.ingested(before, frame, math, notes, g)
    }
}

/// The `j`-th frame is newer than what was taken in before, and than those from the
/// `from`-th on that come before it: it will be taken in, and not passed over.
pub open spec fn due(frames: Seq<SimFrame>, from: int, j: int, last: u64) -> bool {
    &&& frames[j].sim_frame > last
    &&& forall|i: int|
        from <= i < j ==> (#[trigger] frames[i]).sim_frame < frames[j].sim_frame
}

/// The runtimes between the frames that were taken in: one before each frame and one after
/// the last.
pub open spec fn followed<R, C, L, S, A, H>(
    rts: Seq<RenderRuntime<R, C, L>>,
    frames: Seq<SimFrame>,
    math: Elementary<S, A, H>,
    notes: Seq<Seq<RenderNote>>,
    gs: Seq<Ingested>,
) -> bool where
    R: for<'a, 'b, 'c> Fn(&'a mut RenderCtx<'b>, &'c RenderInput),
    C: for<'a, 'b> Fn(&'a mut RenderCtx<'b>),
    L: for<'a, 'b> Fn(&'a mut RenderLocalCtx<'b>),
    S: Fn(F64) -> F64,
    A: Fn(F64) -> F64,
    H: Fn(F64, F64) -> F64,
 {
    &&& rts.len() == frames.len() + 1
    &&& notes.len() == frames.len()
    &&& gs.len() == frames.len()
    &&& forall|k: int|
        0 <= k < frames.len() ==> step_taken(
            rts[k],
            #[trigger] rts[k + 1],
            frames[k],
            math,
            notes[k],
            gs[k],
        )
}

}
