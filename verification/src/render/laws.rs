//! What holds of the render side as it follows the simulation.
use crate::render::sight_laws::law_time_runs_forward;
use crate::render::sight_laws::law_fading_counts_down;
use crate::render::interp_laws::law_samples_that_are_taken_over;
use crate::render::interp_laws::law_alpha_is_held;
use crate::render::frame::Drawn;
use crate::float_laws::lemma_zero_and_one;
use crate::float64::one;
use crate::float64::of_int;
use crate::entity::InstanceId;
use crate::float64::F64;
use crate::lists::kept;
use crate::lists::lemma_kept;
use crate::render::ctx::RenderCtx;
use crate::render::ctx::RenderInput;
use crate::render::ctx::RenderLocalCtx;
use crate::render::frame::Ingested;
use crate::render::handoff::coalesced;
use crate::render::handoff::deltas_of;
use crate::render::handoff::DeltaModel;
use crate::render::handoff::SimFrame;
use crate::render::ingest::change_of;
use crate::render::interp::Elementary;
use crate::render::interp::Interp;
use crate::render::mirror::last_birth;
use crate::render::mirror::lemma_only_values_step;
use crate::render::mirror::Mirror;
use crate::render::reaction::chained;
use crate::render::reaction::lemma_only_values_same;
use crate::render::reaction::RunOut;
use crate::render::runtime::RenderRuntime;
use crate::render::store::RFieldId;
use crate::render::store::RenderStore;
use crate::render::writes::only_values;
use crate::render::writes::RenderNote;
use vstd::prelude::*;

verus! {

/// Runs change nothing but the values of render fields.
proof fn lemma_chain(
    states: Seq<RenderStore>,
    insts: Seq<InstanceId>,
    declared: Seq<Seq<RFieldId>>,
    runs: Seq<RunOut>,
    n: int,
)
    requires
        chained(states, insts, declared, runs),
        0 <= n <= insts.len(),
    ensures
        only_values(states[n], states[0]),
    decreases n,
{
    if n > 0 {
        lemma_chain(states, insts, declared, runs, n - 1);
        assert(crate::render::reaction::committed(
            states[n - 1 + 1],
            states[n - 1],
            insts[n - 1],
            declared[n - 1],
            runs[n - 1].writes,
        ));
        lemma_only_values_step(states[n], states[n - 1], states[0]);
    } else {
        lemma_only_values_same(states[0]);
    }
}

/// Who is on the render side follows the simulation: after a frame was taken in, an instance
/// is there if it was born in the frame or was there before and its id has no new holder,
/// unless it died in the frame and its type does not fade.
pub proof fn law_presence_follows_the_simulation<R, C, L, S, A, H>(
    after: RenderRuntime<R, C, L>,
    before: RenderRuntime<R, C, L>,
    sf: SimFrame,
    math: Elementary<S, A, H>,
    notes: Seq<RenderNote>,
    t: Ingested,
    i: InstanceId,
) where
    R: for<'a, 'b, 'c> Fn(&'a mut RenderCtx<'b>, &'c RenderInput),
    C: for<'a, 'b> Fn(&'a mut RenderCtx<'b>),
    L: for<'a, 'b> Fn(&'a mut RenderLocalCtx<'b>),
    S: Fn(F64) -> F64,
    A: Fn(F64) -> F64,
    H: Fn(F64, F64) -> F64,

    requires
        after.ingested(before, sf, math, notes, t),
    ensures
        after.mirror.store.present(i) <==> (match last_birth(sf.births@, i) {
            Some(b) => i == b,
            None => before.mirror.store.present(i),
        }) && !(sf.deaths@.contains(i) && before.mirror.fading(i.ty) is None),
{
    lemma_chain(
        t.states,
        crate::render::reaction::job_insts(crate::render::reaction::jobs_of(t.jobs)),
        crate::render::reaction::job_writes(
            before.reactions@,
            crate::render::reaction::jobs_of(t.jobs),
        ),
        t.runs,
        t.jobs.len() as int,
    );
    assert(t.born.store.present(i) <==> match last_birth(sf.births@, i) {
        Some(b) => i == b,
        None => before.mirror.store.present(i),
    });
    assert(t.changed.store.present(i) <==> t.born.store.present(i));
    assert(t.rested.store.present(i) <==> t.changed.store.present(i));
    assert(t.reacted().store.present(i) <==> t.rested.store.present(i));
    assert(t.reacted().fading(i.ty) == before.mirror.fading(i.ty));
}

/// What the simulation wrote is what is read: once a frame with a change of a tracked field
/// was taken in, the next interpolation leaves the value written in the output of every
/// track of the field that takes it as it is.
pub proof fn law_a_write_is_read_back<R, C, L, S, A, H>(
    after: RenderRuntime<R, C, L>,
    before: RenderRuntime<R, C, L>,
    sf: SimFrame,
    math: Elementary<S, A, H>,
    notes: Seq<RenderNote>,
    t: Ingested,
    swept: Mirror,
    alpha: F64,
    i: InstanceId,
    ti: usize,
    d: DeltaModel,
) where
    R: for<'a, 'b, 'c> Fn(&'a mut RenderCtx<'b>, &'c RenderInput),
    C: for<'a, 'b> Fn(&'a mut RenderCtx<'b>),
    L: for<'a, 'b> Fn(&'a mut RenderLocalCtx<'b>),
    S: Fn(F64) -> F64,
    A: Fn(F64) -> F64,
    H: Fn(F64, F64) -> F64,

    requires
        before.wf(),
        after.wf(),
        after.ingested(before, sf, math, notes, t),
        swept.after_sweep(after.mirror, alpha, math),
        after.mirror.store.present(i),
        ti < before.mirror.tracks@.len(),
        before.mirror.tracks@[ti as int].ty == i.ty,
        before.mirror.tracks@[ti as int].kind == Interp::Snap,
        change_of(
            coalesced(deltas_of(sf.changes@)),
            i,
            before.mirror.tracks@[ti as int].sim_field,
        ) == Some(d),
    ensures
        swept.store.value(i, before.mirror.tracks@[ti as int].out) == d.new,
{
    let tr = before.mirror.tracks@[ti as int];
    let ds = coalesced(deltas_of(sf.changes@));
    lemma_chain(
        t.states,
        crate::render::reaction::job_insts(crate::render::reaction::jobs_of(t.jobs)),
        crate::render::reaction::job_writes(
            before.reactions@,
            crate::render::reaction::jobs_of(t.jobs),
        ),
        t.runs,
        t.jobs.len() as int,
    );
    let slot = tr.slot as int;
    let reacted = t.reacted();
    assert(reacted.store.present(i));
    assert(t.rested.store.present(i) <==> reacted.store.present(i));
    assert(t.changed.store.present(i) <==> t.rested.store.present(i));
    assert(after.mirror.track_ok(after.mirror.tracks@[ti as int]));
    assert(after.mirror.store.slot_known(i.ty, slot));
    assert(after.mirror.store.types@[i.ty.0 as int].same_schema(
        reacted.store.types@[i.ty.0 as int],
    ));
    assert(reacted.store.slot_known(i.ty, slot));
    assert(reacted.store.types@[i.ty.0 as int].same_schema(t.rested.store.types@[i.ty.0 as int]));
    assert(t.rested.store.slot_known(i.ty, slot));
    assert(t.rested.store.types@[i.ty.0 as int].same_schema(t.changed.store.types@[i.ty.0 as int]));
    assert(t.changed.store.slot_known(i.ty, slot));
    assert(after.mirror.store.pair(i, slot) == reacted.store.pair(i, slot));
    assert(reacted.store.pair(i, slot) == t.rested.store.pair(i, slot));
    assert(t.rested.store.pair(i, slot) == t.changed.store.pair(i, slot));
    assert(t.changed.source(i.ty, slot) == tr.sim_field) by {
        assert(after.mirror.store.at(i.ty).tracks@[slot].sim_field == tr.sim_field);
        assert(after.mirror.store.at(i.ty).tracks@[slot].sim_field == reacted.store.at(
            i.ty,
        ).tracks@[slot].sim_field);
        assert(reacted.store.at(i.ty).tracks@[slot].sim_field == t.rested.store.at(
            i.ty,
        ).tracks@[slot].sim_field);
        assert(t.rested.store.at(i.ty).tracks@[slot].sim_field == t.changed.store.at(
            i.ty,
        ).tracks@[slot].sim_field);
    }
    assert(t.changed.store.pair(i, slot).1 == d.new);
    assert(t.changed.active@.contains((i, ti)));
    assert(reacted.active == t.changed.active);
    let p = |a: (InstanceId, usize)| !reacted.gone(sf.deaths@, a.0);
    lemma_kept(reacted.active@, p);
    assert(!reacted.gone(sf.deaths@, i));
    assert(p((i, ti)));
    assert(after.mirror.active@ == kept(
        reacted.active@,
        |a: (InstanceId, usize)| !reacted.gone(sf.deaths@, a.0),
    ));
    assert(after.mirror.active@.contains((i, ti)));
    assert(after.mirror.tracks@[ti as int] == tr);
}

/// What moved in the frame before and did not change in this one has come to rest: its output
/// holds the value that it moved to, also where it steps there.
pub proof fn law_what_rests_has_arrived<R, C, L, S, A, H>(
    after: RenderRuntime<R, C, L>,
    before: RenderRuntime<R, C, L>,
    sf: SimFrame,
    math: Elementary<S, A, H>,
    notes: Seq<RenderNote>,
    t: Ingested,
    i: InstanceId,
    ti: usize,
) where
    R: for<'a, 'b, 'c> Fn(&'a mut RenderCtx<'b>, &'c RenderInput),
    C: for<'a, 'b> Fn(&'a mut RenderCtx<'b>),
    L: for<'a, 'b> Fn(&'a mut RenderLocalCtx<'b>),
    S: Fn(F64) -> F64,
    A: Fn(F64) -> F64,
    H: Fn(F64, F64) -> F64,

    requires
        after.ingested(before, sf, math, notes, t),
        t.born.active@.contains((i, ti)),
        !t.changed.active@.contains((i, ti)),
        t.changed.store.present(i),
    ensures
        ({
            let tr = t.changed.tracks@[ti as int];
            let end = t.changed.store.pair(i, tr.slot as int).1;
            let r = t.rested.store.value(i, tr.out);
            &&& tr.kind == Interp::Snap ==> r == end
            &&& tr.kind == Interp::Step ==> r == end
            &&& tr.kind == Interp::Lerp && end.num() is None ==> r == end
        }),
{
    let still = |a: (InstanceId, usize)| !t.changed.active@.contains(a);
    lemma_kept(t.born.active@, still);
    assert(still((i, ti)));
    let list = kept(t.born.active@, |a: (InstanceId, usize)| !t.changed.active@.contains(a));
    assert(list.contains((i, ti)));
    let tr = t.changed.tracks@[ti as int];
    let (prev, cur) = t.changed.store.pair(i, tr.slot as int);
    let r = t.rested.store.value(i, tr.out);
    assert(tr.kind.sampled(prev, cur, of_int(1), math, r));
    lemma_zero_and_one();
    law_samples_that_are_taken_over(prev, cur, of_int(1), math, r);
}

/// A render frame counts one on, and its time runs forward.
pub proof fn law_frames_are_drawn_in_time<R, C, L, S, A, H>(
    after: RenderRuntime<R, C, L>,
    before: RenderRuntime<R, C, L>,
    dt: F64,
    alpha: F64,
    math: Elementary<S, A, H>,
    notes: Seq<RenderNote>,
    t: Drawn,
) where
    R: for<'a, 'b, 'c> Fn(&'a mut RenderCtx<'b>, &'c RenderInput),
    C: for<'a, 'b> Fn(&'a mut RenderCtx<'b>),
    L: for<'a, 'b> Fn(&'a mut RenderLocalCtx<'b>),
    S: Fn(F64) -> F64,
    A: Fn(F64) -> F64,
    H: Fn(F64, F64) -> F64,

    requires
        after.drawn(before, dt, alpha, math, notes, t),
        before.clock.frame < u64::MAX,
    ensures
        after.clock.frame == before.clock.frame + 1,
        after.clock.dt.finite() && after.clock.dt.scaled() >= 0,
        dt.finite() && dt.scaled() >= 0 ==> after.clock.dt == dt,
        after.clock.alpha.finite() && 0 <= after.clock.alpha.scaled() <= one(),
        alpha.finite() && 0 <= alpha.scaled() <= one() ==> after.clock.alpha == alpha,
        after.last_ingested == before.last_ingested,
{
    law_time_runs_forward(dt);
    law_alpha_is_held(alpha);
}

/// In a render frame those that fade lose the time that passed: who has no more than that left
/// is gone, and who has more stays.
pub proof fn law_a_frame_of_fading<R, C, L, S, A, H>(
    after: RenderRuntime<R, C, L>,
    before: RenderRuntime<R, C, L>,
    dt: F64,
    alpha: F64,
    math: Elementary<S, A, H>,
    notes: Seq<RenderNote>,
    t: Drawn,
    k: int,
) where
    R: for<'a, 'b, 'c> Fn(&'a mut RenderCtx<'b>, &'c RenderInput),
    C: for<'a, 'b> Fn(&'a mut RenderCtx<'b>),
    L: for<'a, 'b> Fn(&'a mut RenderLocalCtx<'b>),
    S: Fn(F64) -> F64,
    A: Fn(F64) -> F64,
    H: Fn(F64, F64) -> F64,

    requires
        before.wf(),
        after.drawn(before, dt, alpha, math, notes, t),
        dt.finite(),
        dt.scaled() >= 0,
        0 <= k < before.mirror.dying@.len(),
        before.mirror.store.present(before.mirror.dying@[k].0),
        before.mirror.dying@[k].1.finite(),
        before.mirror.dying@[k].1.sub_spec(dt).finite(),
    ensures
        after.mirror.store.present(before.mirror.dying@[k].0)
            <==> before.mirror.dying@[k].1.scaled() > dt.scaled(),
{
    let i = before.mirror.dying@[k].0;
    law_time_runs_forward(dt);
    assert(t.swept.dying == before.mirror.dying);
    assert(t.swept.store.present(i) <==> before.mirror.store.present(i));
    law_fading_counts_down(t.swept, i, k, dt);
    assert(t.faded.store.present(i) <==> t.swept.store.present(i) && !t.swept.expired(i, dt));
    assert(t.viewed.store.present(i) <==> t.faded.store.present(i));
    lemma_chain(
        t.states,
        crate::render::continuous::scan_insts(t.jobs),
        crate::render::continuous::scan_writes(before.continuous@, t.jobs),
        t.runs,
        t.jobs.len() as int,
    );
    assert(after.mirror.store.present(i) <==> t.viewed.store.present(i));
}

}
