//! The calculations of local entities, and the requests to make and end them.
use crate::render::clock::RenderClock;
use crate::render::continuous::asked_of;
use crate::render::continuous::Asked;
use crate::render::continuous::LocalContinuous;
use crate::render::ctx::RenderLocalCtx;
use crate::render::local::initial;
use crate::render::local::LocalStore;
use crate::render::local::RenderLocalCommand;
use crate::render::local::RenderLocalId;
use crate::render::local::RenderLocalTypeId;
use crate::render::reaction::commands_upto;
use crate::render::reaction::RunOut;
use crate::render::store::RFieldId;
use crate::render::writes::fold_writes;
use crate::render::writes::folded_fields;
use crate::render::writes::folded_of;
use crate::render::writes::last_write;
use crate::render::writes::notes_of;
use crate::render::writes::write_notes;
use crate::render::writes::RenderNote;
use crate::render::writes::RenderNoteKind;
use crate::value::Val;
use crate::value::Value;
use vstd::prelude::*;

verus! {

/// The value of a cell after the writes of a run of `id`.
pub open spec fn local_written(
    store: LocalStore,
    id: RenderLocalId,
    declared: Seq<RFieldId>,
    writes: Seq<(RFieldId, Value)>,
    i: RenderLocalId,
    f: RFieldId,
) -> Val {
    match last_write(writes, f) {
        Some(v) if i == id && declared.contains(f) && store.present(id) && store.field_known(
            id.ty,
            f,
        ) => v,
        _ => store.value(i, f),
    }
}

/// Nothing but fields differs.
pub open spec fn only_local_values(after: LocalStore, before: LocalStore) -> bool {
    &&& after.same_schema(before)
    &&& after.spent_kept(before)
    &&& forall|i: RenderLocalId| #[trigger] after.present(i) <==> before.present(i)
    &&& forall|ty: RenderLocalTypeId| #[trigger] after.live(ty) == before.live(ty)
    &&& forall|ty: RenderLocalTypeId|
        before.known(ty) ==> (#[trigger] after.at(ty)).places() == before.at(ty).places()
}

proof fn lemma_only_local_step(a: LocalStore, b: LocalStore, c: LocalStore)
    requires
        only_local_values(a, b),
        only_local_values(b, c),
    ensures
        only_local_values(a, c),
{
    assert forall|t: int| 0 <= t < a.types@.len() implies (#[trigger] a.types@[t]).same_schema(
        c.types@[t],
    ) by {
        assert(b.types@[t].same_schema(c.types@[t]));
    }
    assert forall|i: RenderLocalId| #[trigger] c.spent(i) implies a.spent(i) by {
        assert(b.spent(i));
    }
    assert forall|ty: RenderLocalTypeId| c.known(ty) implies (#[trigger] a.at(ty)).places() == c.at(
        ty,
    ).places() by {
        assert(b.known(ty));
        assert(b.at(ty).places() == c.at(ty).places());
    }
}

proof fn lemma_only_local_same(s: LocalStore)
    ensures
        only_local_values(s, s),
{
    assert forall|t: int| 0 <= t < s.types@.len() implies (#[trigger] s.types@[t]).same_schema(
        s.types@[t],
    ) by {}
}

/// Commits the writes of a run of a local entity.
pub fn commit_local_writes(
    store: &mut LocalStore,
    id: RenderLocalId,
    declared: &Vec<RFieldId>,
    writes: Vec<(RFieldId, Value)>,
    notes: &mut Vec<RenderNote>,
)
    requires
        old(store).wf(),
    ensures
        final(store).wf(),
        only_local_values(*final(store), *old(store)),
        forall|i: RenderLocalId, f: RFieldId| #[trigger]
            final(store).value(i, f) == local_written(*old(store), id, declared@, writes@, i, f),
        final(notes)@ == old(notes)@ + notes_of(None, Some(id), write_notes(declared@, writes@)),
{
    let ghost before = *store;
    let ghost all = writes@;
    let ghost notes0 = notes@;
    let (folded, kinds) = fold_writes(declared, writes);
    let mut n: usize = 0;
    while n < kinds.len()
        invariant
            n <= kinds@.len(),
            notes@ =~= notes0 + notes_of(None, Some(id), kinds@).take(n as int),
        decreases kinds@.len() - n,
    {
        notes.push(RenderNote { inst: None, local: Some(id), kind: kinds[n] });
        n = n + 1;
    }
    assert(notes@ =~= notes0 + notes_of(None, Some(id), kinds@));
    proof {
        lemma_only_local_same(before);
    }
    let mut k: usize = 0;
    while k < folded.len()
        invariant
            k <= folded@.len(),
            folded_of(declared@, all, folded@),
            before.wf(),
            store.wf(),
            only_local_values(*store, before),
            forall|i: RenderLocalId, f: RFieldId| #[trigger]
                store.value(i, f) == local_written(
                    before,
                    id,
                    folded_fields(folded@.take(k as int)),
                    all,
                    i,
                    f,
                ),
        decreases folded@.len() - k,
    {
        let ghost s0 = *store;
        let f = folded[k].0;
        let v = folded[k].1.clone();
        store.write(id, f, v);
        proof {
            let done = folded_fields(folded@.take(k as int));
            let next = folded_fields(folded@.take(k + 1));
            assert(next =~= done.push(f));
            assert(last_write(all, f) == Some(v@));
            assert forall|g: RFieldId| #[trigger] next.contains(g) <==> (done.contains(g) || g == f) by {
                if done.contains(g) {
                    let j = choose|j: int| 0 <= j < done.len() && done[j] == g;
                    assert(next[j] == g);
                }
                if g == f {
                    assert(next[k as int] == f);
                }
            }
            assert forall|i: RenderLocalId, g: RFieldId| #[trigger] store.value(i, g)
                == local_written(before, id, next, all, i, g) by {
                assert(s0.value(i, g) == local_written(before, id, done, all, i, g));
                assert(s0.present(id) <==> before.present(id));
                if before.known(id.ty) {
                    assert(s0.types@[id.ty.0 as int].same_schema(before.types@[id.ty.0 as int]));
                }
            }
            assert forall|ty: RenderLocalTypeId| s0.known(ty) implies (
            #[trigger] store.at(ty)).places() == s0.at(ty).places() by {
                if ty != id.ty {
                    assert(store.at(ty) == s0.at(ty));
                }
            }
            lemma_only_local_step(*store, s0, before);
        }
        k = k + 1;
    }
    proof {
        assert(folded@.take(folded@.len() as int) =~= folded@);
        let fs = folded_fields(folded@);
        assert forall|i: RenderLocalId, f: RFieldId| #[trigger] store.value(i, f) == local_written(
            before,
            id,
            declared@,
            all,
            i,
            f,
        ) by {
            if last_write(all, f) is Some {
                if declared@.contains(f) {
                    let j = choose|j: int| 0 <= j < folded@.len() && (#[trigger] folded@[j]).0 == f;
                    assert(fs[j] == f);
                } else if fs.contains(f) {
                    let j = choose|j: int| 0 <= j < fs.len() && fs[j] == f;
                    assert(declared@.contains(folded@[j].0));
                }
            }
        }
    }
}

/// The runs of the first `n` local calculations.
pub open spec fn local_scans(store: LocalStore, cs: Seq<LocalContinuous>, n: int) -> Seq<
    (usize, RenderLocalId),
>
    decreases n,
{
    if n <= 0 {
        Seq::empty()
    } else {
        let ids = store.live(cs[n - 1].ty);
        local_scans(store, cs, n - 1) + Seq::new(ids.len(), |i: int| ((n - 1) as usize, ids[i]))
    }
}

pub fn build_local_scans(store: &LocalStore, cs: &Vec<LocalContinuous>) -> (r: Vec<
    (usize, RenderLocalId),
>)
    requires
        store.wf(),
    ensures
        r@ == local_scans(*store, cs@, cs@.len() as int),
        forall|i: int| 0 <= i < r@.len() ==> (#[trigger] r@[i]).0 < cs@.len(),
{
    let mut out: Vec<(usize, RenderLocalId)> = Vec::new();
    let mut k: usize = 0;
    while k < cs.len()
        invariant
            store.wf(),
            k <= cs@.len(),
            out@ == local_scans(*store, cs@, k as int),
            forall|i: int| 0 <= i < out@.len() ==> (#[trigger] out@[i]).0 < k,
        decreases cs@.len() - k,
    {
        let ghost before = out@;
        let ids = store.live_entities(cs[k].ty);
        let ghost mine = Seq::new(ids@.len(), |i: int| (k, ids@[i]));
        let mut i: usize = 0;
        while i < ids.len()
            invariant
                i <= ids@.len(),
                mine == Seq::new(ids@.len(), |i: int| (k, ids@[i])),
                out@ =~= before + mine.take(i as int),
                forall|j: int| 0 <= j < out@.len() ==> (#[trigger] out@[j]).0 <= k,
            decreases ids@.len() - i,
        {
            out.push((k, ids[i]));
            i = i + 1;
        }
        assert(mine.take(mine.len() as int) =~= mine);
        k = k + 1;
    }
    out
}

/// A body can be run in any context.
pub open spec fn ticks_local<L: for<'a, 'b> Fn(&'a mut RenderLocalCtx<'b>)>(f: L) -> bool {
    forall|c: &mut RenderLocalCtx<'_>| #[trigger] f.requires((c,))
}

/// `after` is `before` with the writes of a run of `id`.
pub open spec fn local_committed(
    after: LocalStore,
    before: LocalStore,
    id: RenderLocalId,
    declared: Seq<RFieldId>,
    writes: Seq<(RFieldId, Value)>,
) -> bool {
    &&& after.wf()
    &&& only_local_values(after, before)
    &&& forall|i: RenderLocalId, f: RFieldId| #[trigger]
        after.value(i, f) == local_written(before, id, declared, writes, i, f)
}

/// The writes of the runs, committed one after the other.
pub open spec fn local_chained(
    states: Seq<LocalStore>,
    cs: Seq<LocalContinuous>,
    jobs: Seq<(usize, RenderLocalId)>,
    runs: Seq<RunOut>,
) -> bool {
    &&& states.len() == jobs.len() + 1
    &&& runs.len() == jobs.len()
    &&& forall|i: int|
        0 <= i < jobs.len() ==> local_committed(
            #[trigger] states[i + 1],
            states[i],
            jobs[i].1,
            cs[jobs[i].0 as int].writes@,
            runs[i].writes,
        )
}

/// The notes on the first `n` runs.
pub open spec fn local_notes_upto(
    cs: Seq<LocalContinuous>,
    jobs: Seq<(usize, RenderLocalId)>,
    runs: Seq<RunOut>,
    n: int,
) -> Seq<RenderNote>
    decreases n,
{
    if n <= 0 {
        Seq::empty()
    } else {
        local_notes_upto(cs, jobs, runs, n - 1) + notes_of(
            None,
            Some(jobs[n - 1].1),
            write_notes(cs[jobs[n - 1].0 as int].writes@, runs[n - 1].writes),
        )
    }
}

fn tick_local_body<L: for<'a, 'b> Fn(&'a mut RenderLocalCtx<'b>)>(
    store: &LocalStore,
    id: RenderLocalId,
    clock: RenderClock,
    f: &L,
) -> (r: Asked)
    requires
        store.wf(),
        ticks_local(*f),
    ensures
        exists|c: &mut RenderLocalCtx<'_>|
            {
                &&& f.ensures((c,), ())
                &&& #[trigger] (*c).fresh(*store, id, clock)
                &&& r.writes@ == final(c).writes_made()
                &&& r.commands@ == final(c).commands_made()
            },
{
    let mut ctx = RenderLocalCtx::new(store, id, clock);
    f(&mut ctx);
    let (writes, commands) = ctx.finish();
    Asked { writes, commands }
}

fn tick_local_all<L: for<'a, 'b> Fn(&'a mut RenderLocalCtx<'b>)>(
    store: &LocalStore,
    bodies: &Vec<L>,
    jobs: &Vec<(usize, RenderLocalId)>,
    clock: RenderClock,
) -> (r: Vec<Asked>)
    requires
        store.wf(),
        forall|k: int| 0 <= k < bodies@.len() ==> ticks_local(#[trigger] bodies@[k]),
        forall|i: int| 0 <= i < jobs@.len() ==> (#[trigger] jobs@[i]).0 < bodies@.len(),
    ensures
        r@.len() == jobs@.len(),
        forall|i: int|
            #![trigger jobs@[i]]
            0 <= i < jobs@.len() && jobs@[i].0 < bodies@.len() ==> exists|
                c: &mut RenderLocalCtx<'_>,
            |
                {
                    &&& bodies@[jobs@[i].0 as int].ensures((c,), ())
                    &&& #[trigger] (*c).fresh(*store, jobs@[i].1, clock)
                    &&& r@[i].writes@ == final(c).writes_made()
                    &&& r@[i].commands@ == final(c).commands_made()
                },
{
    let mut out: Vec<Asked> = Vec::new();
    let mut i: usize = 0;
    while i < jobs.len()
        invariant
            store.wf(),
            forall|k: int| 0 <= k < bodies@.len() ==> ticks_local(#[trigger] bodies@[k]),
            forall|k: int| 0 <= k < jobs@.len() ==> (#[trigger] jobs@[k]).0 < bodies@.len(),
            i <= jobs@.len(),
            out@.len() == i,
            forall|k: int|
                #![trigger jobs@[k]]
                0 <= k < i && jobs@[k].0 < bodies@.len() ==> exists|c: &mut RenderLocalCtx<'_>|
                    {
                        &&& bodies@[jobs@[k].0 as int].ensures((c,), ())
                        &&& #[trigger] (*c).fresh(*store, jobs@[k].1, clock)
                        &&& out@[k].writes@ == final(c).writes_made()
                        &&& out@[k].commands@ == final(c).commands_made()
                    },
        decreases jobs@.len() - i,
    {
        let (k, id) = jobs[i];
        assert(jobs@[i as int].0 < bodies@.len());
        let asked = tick_local_body(store, id, clock, &bodies[k]);
        out.push(asked);
        i = i + 1;
    }
    out
}

/// Runs the local calculations of a frame, all on the same data, and commits their writes.
pub fn run_local_continuous<L: for<'a, 'b> Fn(&'a mut RenderLocalCtx<'b>)>(
    store: &mut LocalStore,
    cs: &Vec<LocalContinuous>,
    bodies: &Vec<L>,
    jobs: &Vec<(usize, RenderLocalId)>,
    clock: RenderClock,
    notes: &mut Vec<RenderNote>,
    commands: &mut Vec<RenderLocalCommand>,
)
    requires
        old(store).wf(),
        bodies@.len() == cs@.len(),
        forall|k: int| 0 <= k < bodies@.len() ==> ticks_local(#[trigger] bodies@[k]),
        forall|i: int| 0 <= i < jobs@.len() ==> (#[trigger] jobs@[i]).0 < cs@.len(),
    ensures
        final(store).wf(),
        only_local_values(*final(store), *old(store)),
        exists|states: Seq<LocalStore>, runs: Seq<RunOut>|
            {
                &&& #[trigger] local_chained(states, cs@, jobs@, runs)
                &&& states[0] == *old(store)
                &&& states[jobs@.len() as int] == *final(store)
                &&& forall|i: int|
                    #![trigger jobs@[i]]
                    0 <= i < jobs@.len() && jobs@[i].0 < bodies@.len() ==> exists|
                        c: &mut RenderLocalCtx<'_>,
                    |
                        {
                            &&& bodies@[jobs@[i].0 as int].ensures((c,), ())
                            &&& #[trigger] (*c).fresh(*old(store), jobs@[i].1, clock)
                            &&& runs[i].writes == final(c).writes_made()
                            &&& runs[i].commands == final(c).commands_made()
                        }
                &&& final(notes)@ == old(notes)@ + local_notes_upto(
                    cs@,
                    jobs@,
                    runs,
                    jobs@.len() as int,
                )
                &&& final(commands)@ == old(commands)@ + commands_upto(runs, jobs@.len() as int)
            },
{
    let ghost before = *store;
    let ghost notes0 = notes@;
    let ghost commands0 = commands@;
    let mut rest = tick_local_all(store, bodies, jobs, clock);
    let ghost runs = asked_of(rest@);
    let ghost mut states: Seq<LocalStore> = seq![before];
    proof {
        assert forall|i: int|
            #![trigger jobs@[i]]
            0 <= i < jobs@.len() && jobs@[i].0 < bodies@.len() implies exists|
            c: &mut RenderLocalCtx<'_>,
        |
            {
                &&& bodies@[jobs@[i].0 as int].ensures((c,), ())
                &&& #[trigger] (*c).fresh(before, jobs@[i].1, clock)
                &&& runs[i].writes == final(c).writes_made()
                &&& runs[i].commands == final(c).commands_made()
            } by {
            assert(runs[i] == rest@[i]@);
        }
        assert(notes@ =~= notes0 + local_notes_upto(cs@, jobs@, runs, 0));
        assert(commands@ =~= commands0 + commands_upto(runs, 0));
        lemma_only_local_same(before);
    }
    let mut i: usize = 0;
    while i < jobs.len()
        invariant
            runs.len() == jobs@.len() == rest@.len(),
            forall|k: int| 0 <= k < jobs@.len() ==> (#[trigger] jobs@[k]).0 < cs@.len(),
            i <= jobs@.len(),
            forall|k: int| i <= k < rest@.len() ==> (#[trigger] rest@[k])@ == runs[k],
            store.wf(),
            only_local_values(*store, before),
            states.len() == i + 1,
            states[0] == before,
            states[i as int] == *store,
            forall|k: int|
                0 <= k < i ==> local_committed(
                    #[trigger] states[k + 1],
                    states[k],
                    jobs@[k].1,
                    cs@[jobs@[k].0 as int].writes@,
                    runs[k].writes,
                ),
            notes@ == notes0 + local_notes_upto(cs@, jobs@, runs, i as int),
            commands@ == commands0 + commands_upto(runs, i as int),
        decreases jobs@.len() - i,
    {
        let (k, id) = jobs[i];
        let ghost s0 = *store;
        let ghost states0 = states;
        let ghost rest0 = rest@;
        assert(jobs@[i as int].0 < cs@.len());
        assert(rest@[i as int]@ == runs[i as int]);
        let mut writes: Vec<(RFieldId, Value)> = Vec::new();
        let mut cmds: Vec<RenderLocalCommand> = Vec::new();
        core::mem::swap(&mut writes, &mut rest[i].writes);
        core::mem::swap(&mut cmds, &mut rest[i].commands);
        commit_local_writes(store, id, &cs[k].writes, writes, notes);
        commands.append(&mut cmds);
        proof {
            states = states.push(*store);
            lemma_only_local_step(*store, s0, before);
            assert forall|j: int| i + 1 <= j < rest@.len() implies (#[trigger] rest@[j])@
                == runs[j] by {
                assert(rest0[j]@ == runs[j]);
            }
            assert(notes@ =~= notes0 + local_notes_upto(cs@, jobs@, runs, i + 1));
            assert(commands@ =~= commands0 + commands_upto(runs, i + 1));
            assert forall|j: int| 0 <= j < i + 1 implies local_committed(
                #[trigger] states[j + 1],
                states[j],
                jobs@[j].1,
                cs@[jobs@[j].0 as int].writes@,
                runs[j].writes,
            ) by {
                if j < i {
                    assert(states0[j + 1] == states[j + 1] && states0[j] == states[j]);
                }
            }
        }
        i = i + 1;
    }
    proof {
        assert(local_chained(states, cs@, jobs@, runs));
    }
}

/// `id` is a new entity of `after`, with these initial values.
pub open spec fn made(
    after: LocalStore,
    before: LocalStore,
    id: RenderLocalId,
    init: Seq<(RFieldId, Value)>,
) -> bool {
    &&& id.id == before.at(id.ty).places().next_id()
    &&& id.generation == before.at(id.ty).places().next_generation()
    &&& after.only_type(before, id.ty)
    &&& after.at(id.ty).places() == before.at(id.ty).places().with_new()
    &&& !before.spent(id)
    &&& forall|i: RenderLocalId|
        i.ty == id.ty && i.id == id.id ==> !#[trigger] before.present(i)
    &&& after.rows_kept(before, id)
    &&& forall|i: RenderLocalId|
        i.ty == id.ty && i.id == id.id ==> (#[trigger] after.present(i) <==> i == id)
    &&& forall|f: RFieldId|
        after.field_known(id.ty, f) ==> #[trigger] after.value(id, f) == initial(
            init,
            f,
            after.at(id.ty).fields@[f.0 as int].default@,
        )
}

/// `after` is `before` with the request carried out.
pub open spec fn obeyed(after: LocalStore, before: LocalStore, cmd: RenderLocalCommand) -> bool {
    &&& after.wf()
    &&& after.same_schema(before)
    &&& after.spent_kept(before)
    &&& match cmd {
        RenderLocalCommand::Spawn { ty, init } => match before.refusal(ty, init@) {
            Some(_) => after == before,
            None => exists|id: RenderLocalId| id.ty == ty && #[trigger] made(
                after,
                before,
                id,
                init@,
            ),
        },
        RenderLocalCommand::Destroy(id) => {
            &&& !after.present(id)
            &&& after.rows_kept(before, id)
            &&& before.present(id) ==> after.spent(id) && after.only_type(before, id.ty)
                && after.at(id.ty).places() == before.at(id.ty).places().without(id.id)
            &&& !before.present(id) ==> after == before
        },
    }
}

/// The note on a request that cannot be carried out.
pub open spec fn refusal_note(store: LocalStore, cmd: RenderLocalCommand) -> Seq<RenderNote> {
    match cmd {
        RenderLocalCommand::Spawn { ty, init } => match store.refusal(ty, init@) {
            Some(e) => seq![RenderNote { inst: None, local: None, kind: RenderNoteKind::Local(e) }],
            None => Seq::empty(),
        },
        RenderLocalCommand::Destroy(_) => Seq::empty(),
    }
}

/// The notes on the first `n` requests.
pub open spec fn refusals_upto(
    states: Seq<LocalStore>,
    commands: Seq<RenderLocalCommand>,
    n: int,
) -> Seq<RenderNote>
    decreases n,
{
    if n <= 0 {
        Seq::empty()
    } else {
        refusals_upto(states, commands, n - 1) + refusal_note(states[n - 1], commands[n - 1])
    }
}

/// Requests carried out one after the other.
pub open spec fn obeyed_all(states: Seq<LocalStore>, commands: Seq<RenderLocalCommand>) -> bool {
    &&& states.len() == commands.len() + 1
    &&& forall|i: int|
        0 <= i < commands.len() ==> obeyed(#[trigger] states[i + 1], states[i], commands[i])
}

proof fn lemma_refusals_agree(
    a: Seq<LocalStore>,
    b: Seq<LocalStore>,
    commands: Seq<RenderLocalCommand>,
    n: int,
)
    requires
        n <= a.len(),
        n <= b.len(),
        forall|i: int| 0 <= i < n ==> #[trigger] a[i] == b[i],
    ensures
        refusals_upto(a, commands, n) == refusals_upto(b, commands, n),
    decreases n,
{
    if n > 0 {
        lemma_refusals_agree(a, b, commands, n - 1);
        assert(a[n - 1] == b[n - 1]);
    }
}

/// Carries out requests, in order. One that cannot be carried out is noted.
pub fn apply_commands(
    store: &mut LocalStore,
    commands: Vec<RenderLocalCommand>,
    notes: &mut Vec<RenderNote>,
)
    requires
        old(store).wf(),
    ensures
        final(store).wf(),
        final(store).same_schema(*old(store)),
        final(store).spent_kept(*old(store)),
        exists|states: Seq<LocalStore>|
            {
                &&& #[trigger] obeyed_all(states, commands@)
                &&& states[0] == *old(store)
                &&& states[commands@.len() as int] == *final(store)
                &&& final(notes)@ == old(notes)@ + refusals_upto(
                    states,
                    commands@,
                    commands@.len() as int,
                )
            },
{
    let ghost before = *store;
    let ghost all = commands@;
    let ghost notes0 = notes@;
    let ghost mut states: Seq<LocalStore> = seq![before];
    let mut rest = commands;
    let n = rest.len();
    let mut i: usize = 0;
    proof {
        assert(notes@ =~= notes0 + refusals_upto(states, all, 0));
        lemma_only_local_same(before);
    }
    while i < n
        invariant
            n == rest@.len() == all.len(),
            i <= n,
            forall|k: int| i <= k < n ==> #[trigger] rest@[k] == all[k],
            store.wf(),
            store.same_schema(before),
            store.spent_kept(before),
            states.len() == i + 1,
            states[0] == before,
            states[i as int] == *store,
            forall|k: int| 0 <= k < i ==> obeyed(#[trigger] states[k + 1], states[k], all[k]),
            notes@ == notes0 + refusals_upto(states, all, i as int),
        decreases n - i,
    {
        let ghost s0 = *store;
        let ghost states0 = states;
        let ghost rest0 = rest@;
        let ghost n0 = notes@;
        let mut cmd = RenderLocalCommand::Destroy(
            RenderLocalId { ty: RenderLocalTypeId(0), id: 0, generation: 0 },
        );
        assert(rest@[i as int] == all[i as int]);
        core::mem::swap(&mut cmd, &mut rest[i]);
        assert(cmd == all[i as int]);
        match cmd {
            RenderLocalCommand::Spawn { ty, init } => {
                let ghost iv = init@;
                match store.spawn(ty, init) {
                    Ok(id) => {
                        proof {
                            assert(made(*store, s0, id, iv));
                        }
                    },
                    Err(e) => {
                        notes.push(
                            RenderNote { inst: None, local: None, kind: RenderNoteKind::Local(e) },
                        );
                    },
                }
            },
            RenderLocalCommand::Destroy(id) => {
                let _ = store.destroy(id);
            },
        }
        proof {
            assert(obeyed(*store, s0, all[i as int]));
            states = states.push(*store);
            assert(notes@ =~= n0 + refusal_note(s0, all[i as int]));
            lemma_refusals_agree(states0, states, all, i as int);
            assert(notes@ =~= notes0 + refusals_upto(states, all, i + 1));
            assert forall|k: int| 0 <= k < i + 1 implies obeyed(
                #[trigger] states[k + 1],
                states[k],
                all[k],
            ) by {
                if k < i {
                    assert(states0[k + 1] == states[k + 1] && states0[k] == states[k]);
                }
            }
            assert forall|t: int| 0 <= t < store.types@.len() implies (
            #[trigger] store.types@[t]).same_schema(before.types@[t]) by {
                assert(s0.types@[t].same_schema(before.types@[t]));
            }
            assert forall|id: RenderLocalId| #[trigger] before.spent(id) implies store.spent(id) by {
                assert(s0.spent(id));
            }
        }
        i = i + 1;
    }
    proof {
        assert(obeyed_all(states, all));
    }
}

}
