//! What runs leave in the stores, and what streams of rows hold.
use crate::render::writes::write_notes;
use crate::render::reaction::RunOut;
use crate::render::reaction::notes_upto;
use crate::render::mirror::last_birth;
use crate::render::mirror::Mirror;
use crate::render::submission::RenderBinding;
use crate::render::submission::local_type_packets;
use crate::entity::InstanceId;
use crate::render::instance_row::bytes_of;
use crate::render::instance_row::law_rows_survive_their_bytes;
use crate::render::instance_row::RowModel;
use crate::render::instance_row::Semantics;
use crate::render::local::LocalStore;
use crate::render::local::RenderLocalCommand;
use crate::render::local::RenderLocalId;
use crate::render::local::RenderLocalTypeId;
use crate::render::local_laws::law_local_entities_start_as_asked;
use crate::render::local_run::local_committed;
use crate::render::local_run::made;
use crate::render::local_run::obeyed;
use crate::render::local_run::refusal_note;
use crate::render::reaction::all_jobs;
use crate::render::reaction::committed;
use crate::render::reaction::reaction_jobs;
use crate::render::reaction::Reaction;
use crate::render::run_laws::law_the_last_write_stays;
use crate::render::store::RFieldId;
use crate::render::store::RenderStore;
use crate::render::submission::rows_of_packets;
use crate::render::submission::stream_bytes;
use crate::render::writes::last_write;
use crate::render::writes::RenderNoteKind;
use crate::runtime::lifecycle::WriteModel;
use crate::value::Value;
use vstd::prelude::*;

verus! {

/// A run leaves in each field of its instance that it declares what it wrote there last, and
/// nothing anywhere else.
pub proof fn law_runs_leave_what_they_wrote(
    after: RenderStore,
    before: RenderStore,
    inst: InstanceId,
    declared: Seq<RFieldId>,
    writes: Seq<(RFieldId, Value)>,
    k: int,
    i: InstanceId,
    f: RFieldId,
)
    requires
        committed(after, before, inst, declared, writes),
    ensures
        0 <= k < writes.len() && declared.contains(writes[k].0) && before.present(inst)
            && before.field_known(inst.ty, writes[k].0) && (forall|j: int|
            k < j < writes.len() ==> (#[trigger] writes[j]).0 != writes[k].0) ==> after.value(
            inst,
            writes[k].0,
        ) == writes[k].1@,
        i != inst ==> after.value(i, f) == before.value(i, f),
        !declared.contains(f) ==> after.value(i, f) == before.value(i, f),
        (forall|j: int| 0 <= j < writes.len() ==> (#[trigger] writes[j]).0 != f) ==> after.value(
            i,
            f,
        ) == before.value(i, f),
{
    if 0 <= k < writes.len() {
        law_the_last_write_stays(writes, writes[k].0, k);
    }
    if forall|j: int| 0 <= j < writes.len() ==> (#[trigger] writes[j]).0 != f {
        lemma_never(writes, f);
    }
}

proof fn lemma_never(writes: Seq<(RFieldId, Value)>, f: RFieldId)
    requires
        forall|j: int| 0 <= j < writes.len() ==> (#[trigger] writes[j]).0 != f,
    ensures
        last_write(writes, f) is None,
    decreases writes.len(),
{
    if writes.len() > 0 {
        let t = writes.drop_last();
        assert forall|j: int| 0 <= j < t.len() implies (#[trigger] t[j]).0 != f by {
            assert(writes[j].0 != f);
        }
        lemma_never(t, f);
        assert(writes[writes.len() - 1].0 != f);
    }
}

/// A run of a local calculation leaves in each field of its entity that it declares what it
/// wrote there last, and nothing anywhere else.
pub proof fn law_local_runs_leave_what_they_wrote(
    after: LocalStore,
    before: LocalStore,
    id: RenderLocalId,
    declared: Seq<RFieldId>,
    writes: Seq<(RFieldId, Value)>,
    k: int,
    i: RenderLocalId,
    f: RFieldId,
)
    requires
        local_committed(after, before, id, declared, writes),
    ensures
        0 <= k < writes.len() && declared.contains(writes[k].0) && before.present(id)
            && before.field_known(id.ty, writes[k].0) && (forall|j: int|
            k < j < writes.len() ==> (#[trigger] writes[j]).0 != writes[k].0) ==> after.value(
            id,
            writes[k].0,
        ) == writes[k].1@,
        i != id ==> after.value(i, f) == before.value(i, f),
        !declared.contains(f) ==> after.value(i, f) == before.value(i, f),
        (forall|j: int| 0 <= j < writes.len() ==> (#[trigger] writes[j]).0 != f) ==> after.value(
            i,
            f,
        ) == before.value(i, f),
{
    if 0 <= k < writes.len() {
        law_the_last_write_stays(writes, writes[k].0, k);
    }
    if forall|j: int| 0 <= j < writes.len() ==> (#[trigger] writes[j]).0 != f {
        lemma_never(writes, f);
    }
}

/// A request for a local entity that is refused changes nothing and is noted with its reason.
/// One that is met leaves an entity that was not there, with the values that were asked for.
pub proof fn law_requests_are_met_or_noted(
    after: LocalStore,
    before: LocalStore,
    ty: RenderLocalTypeId,
    init: Vec<(RFieldId, Value)>,
    k: int,
) -> (id: RenderLocalId)
    requires
        obeyed(after, before, RenderLocalCommand::Spawn { ty, init }),
    ensures
        before.refusal(ty, init@) is Some ==> {
            let notes = refusal_note(before, RenderLocalCommand::Spawn { ty, init });
            &&& after == before
            &&& notes.len() == 1
            &&& notes[0].kind == RenderNoteKind::Local(before.refusal(ty, init@)->0)
        },
        before.refusal(ty, init@) is None ==> {
            &&& id.ty == ty
            &&& !before.present(id)
            &&& after.present(id)
            &&& refusal_note(before, RenderLocalCommand::Spawn { ty, init }).len() == 0
            &&& 0 <= k < init@.len() && after.field_known(ty, init@[k].0) && (forall|j: int|
                k < j < init@.len() ==> (#[trigger] init@[j]).0 != init@[k].0) ==> after.value(
                id,
                init@[k].0,
            ) == init@[k].1@
        },
{
    if before.refusal(ty, init@) is None {
        let id = choose|id: RenderLocalId| id.ty == ty && #[trigger] made(
            after,
            before,
            id,
            init@,
        );
        assert(made(after, before, id, init@));
        assert(after.present(id) <==> id == id);
        if 0 <= k < init@.len() && after.field_known(ty, init@[k].0) {
            let f = init@[k].0;
            law_local_entities_start_as_asked(
                init@,
                f,
                after.at(id.ty).fields@[f.0 as int].default@,
                k,
            );
            assert(after.value(id, f) == crate::render::local::initial(
                init@,
                f,
                after.at(id.ty).fields@[f.0 as int].default@,
            ));
        }
        id
    } else {
        RenderLocalId { ty, id: 0, generation: 0 }
    }
}

/// The end of a local entity leaves the others as they were.
pub proof fn law_local_ends_touch_nobody_else(
    after: LocalStore,
    before: LocalStore,
    id: RenderLocalId,
    other: RenderLocalId,
    f: RFieldId,
)
    requires
        obeyed(after, before, RenderLocalCommand::Destroy(id)),
    ensures
        !after.present(id),
        !before.present(id) ==> after == before,
        other.ty != id.ty || other.id != id.id ==> (after.present(other) <==> before.present(other))
            && after.value(other, f) == before.value(other, f),
{
}

/// The bytes of a stream are those of its rows, one after the other: from the place of a row
/// on, that row is read back.
pub proof fn law_streams_are_read_back(rows: Seq<RowModel>, i: int)
    requires
        0 <= i < rows.len(),
    ensures
        stream_bytes(rows).len() == 64 * rows.len(),
        RowModel::read_from(stream_bytes(rows).skip(64 * i)) == rows[i],
    decreases rows.len(),
{
    let t = rows.drop_last();
    let a = stream_bytes(t);
    let b = bytes_of(rows.last().words());
    lemma_stream_length(t);
    if i < t.len() {
        law_streams_are_read_back(t, i);
        lemma_stream_split(rows, i);
        let rest = stream_bytes(rows).skip(64 * i).skip(64);
        assert(stream_bytes(rows).skip(64 * i) =~= bytes_of(rows[i].words()) + rest);
        law_rows_survive_their_bytes(rows[i], rest);
    } else {
        assert(stream_bytes(rows).skip(64 * i) =~= b + Seq::<u8>::empty());
        law_rows_survive_their_bytes(rows[i], Seq::empty());
    }
}

proof fn lemma_stream_length(rows: Seq<RowModel>)
    ensures
        stream_bytes(rows).len() == 64 * rows.len(),
    decreases rows.len(),
{
    if rows.len() > 0 {
        lemma_stream_length(rows.drop_last());
    }
}

/// The bytes of a row stand at its place.
proof fn lemma_stream_split(rows: Seq<RowModel>, i: int)
    requires
        0 <= i < rows.len(),
    ensures
        stream_bytes(rows).len() == 64 * rows.len(),
        stream_bytes(rows).subrange(64 * i, 64 * i + 64) == bytes_of(rows[i].words()),
    decreases rows.len(),
{
    let t = rows.drop_last();
    lemma_stream_length(t);
    lemma_stream_length(rows);
    if i < t.len() {
        lemma_stream_split(t, i);
        assert(stream_bytes(rows).subrange(64 * i, 64 * i + 64) =~= stream_bytes(t).subrange(
            64 * i,
            64 * i + 64,
        ));
    } else {
        assert(stream_bytes(rows).subrange(64 * i, 64 * i + 64) =~= bytes_of(rows[i].words()));
    }
}

/// Row `i` is that of packet `i`, and says so.
pub proof fn law_rows_follow_the_packets(ps: Seq<Semantics>, i: int)
    requires
        0 <= i < ps.len(),
        i < u32::MAX,
    ensures
        rows_of_packets(ps).len() == ps.len(),
        rows_of_packets(ps)[i] == ps[i].row(i as u32),
        rows_of_packets(ps)[i].packet == i,
{
}

/// The reactions run in the order of their registration, each with its own runs.
pub proof fn law_reactions_run_in_order(
    rs: Seq<Reaction>,
    log: Seq<WriteModel>,
    deaths: Seq<InstanceId>,
    n: int,
)
    requires
        0 <= n <= rs.len(),
        n <= usize::MAX,
    ensures
        ({
            let jobs = all_jobs(rs, log, deaths, n);
            &&& forall|i: int| 0 <= i < jobs.len() ==> (#[trigger] jobs[i]).reaction < n
            &&& forall|i: int|
                0 <= i < jobs.len() ==> reaction_jobs(
                    rs[(#[trigger] jobs[i]).reaction as int],
                    jobs[i].reaction,
                    log,
                    deaths,
                ).contains(jobs[i])
            &&& forall|i: int, j: int|
                0 <= i < j < jobs.len() ==> (#[trigger] jobs[i]).reaction <= (
                #[trigger] jobs[j]).reaction
        }),
    decreases n,
{
    if n > 0 {
        law_reactions_run_in_order(rs, log, deaths, n - 1);
        let a = all_jobs(rs, log, deaths, n - 1);
        let b = reaction_jobs(rs[n - 1], (n - 1) as usize, log, deaths);
        let jobs = all_jobs(rs, log, deaths, n);
        assert(jobs == a + b);
        assert forall|i: int| 0 <= i < jobs.len() implies (#[trigger] jobs[i]).reaction < n
            && reaction_jobs(
            rs[jobs[i].reaction as int],
            jobs[i].reaction,
            log,
            deaths,
        ).contains(jobs[i]) by {
            if i < a.len() {
                assert(jobs[i] == a[i]);
            } else {
                assert(jobs[i] == b[i - a.len()]);
                assert(b[i - a.len()].reaction == n - 1);
            }
        }
        assert forall|i: int, j: int| 0 <= i < j < jobs.len() implies (
        #[trigger] jobs[i]).reaction <= (#[trigger] jobs[j]).reaction by {
            if j < a.len() {
                assert(jobs[i] == a[i] && jobs[j] == a[j]);
            } else {
                assert(jobs[j] == b[j - a.len()]);
                assert(b[j - a.len()].reaction == n - 1);
                if i < a.len() {
                    assert(jobs[i] == a[i]);
                } else {
                    assert(jobs[i] == b[i - a.len()]);
                }
            }
        }
    }
}

/// The packets of a local type are those of the entities that are there and not hidden, in
/// order.
pub proof fn law_packets_of_a_local_type(
    store: LocalStore,
    b: RenderBinding,
    ids: Seq<RenderLocalId>,
    n: int,
)
    requires
        0 <= n <= ids.len(),
    ensures
        ({
            let read = |i: RenderLocalId| (|f: RFieldId| store.value(i, f));
            let shown = ids.take(n).filter(
                |i: RenderLocalId| store.present(i) && !b.hides(read(i)),
            );
            let ps = local_type_packets(store, b, ids, n);
            &&& ps.len() == shown.len()
            &&& forall|k: int|
                0 <= k < ps.len() ==> (#[trigger] ps[k]).0 == shown[k] && ps[k].1 == b.shows(
                    read(shown[k]),
                )
        }),
    decreases n,
{
    reveal(Seq::filter);
    let read = |i: RenderLocalId| (|f: RFieldId| store.value(i, f));
    let p = |i: RenderLocalId| store.present(i) && !b.hides(read(i));
    if n > 0 {
        law_packets_of_a_local_type(store, b, ids, n - 1);
        let i = ids[n - 1];
        assert(ids.take(n).drop_last() =~= ids.take(n - 1));
        assert(ids.take(n).last() == i);
        assert(read(i) =~= crate::render::submission::local_fields_of(store, i));
    }
}

/// The newborn are there, with every field at its default and every mirror at rest at the
/// default of what it follows, and whoever had their rows before is not.
pub proof fn law_newborns_start_at_rest(
    after: Mirror,
    before: Mirror,
    births: Seq<InstanceId>,
    k: int,
    f: RFieldId,
    t: int,
    other: InstanceId,
)
    requires
        after.after_births(before, births),
        0 <= k < births.len(),
        forall|j: int|
            k < j < births.len() ==> !((#[trigger] births[j]).ty == births[k].ty && births[j].id
                == births[k].id),
    ensures
        after.store.present(births[k]),
        after.store.field_known(births[k].ty, f) ==> after.store.value(births[k], f)
            == after.store.at(births[k].ty).render_defaults@[f.0 as int]@,
        after.store.slot_known(births[k].ty, t) ==> after.store.pair(births[k], t).0
            == after.store.at(births[k].ty).tracks@[t].default@ && after.store.pair(births[k], t).1
            == after.store.at(births[k].ty).tracks@[t].default@,
        other.ty == births[k].ty && other.id == births[k].id && other != births[k]
            ==> !after.store.present(other),
        (forall|j: int|
            0 <= j < births.len() ==> !((#[trigger] births[j]).ty == other.ty && births[j].id
                == other.id)) ==> (after.store.present(other) <==> before.store.present(other))
            && after.store.value(other, f) == before.store.value(other, f),
{
    lemma_last_birth(births, births[k], k);
    if other.ty == births[k].ty && other.id == births[k].id {
        lemma_last_birth(births, other, k);
    }
    if forall|j: int|
        0 <= j < births.len() ==> !((#[trigger] births[j]).ty == other.ty && births[j].id
            == other.id) {
        lemma_no_birth(births, other);
    }
    assert(after.store.present(births[k]));
}

proof fn lemma_last_birth(births: Seq<InstanceId>, i: InstanceId, k: int)
    requires
        0 <= k < births.len(),
        births[k].ty == i.ty && births[k].id == i.id,
        forall|j: int|
            k < j < births.len() ==> !((#[trigger] births[j]).ty == i.ty && births[j].id == i.id),
    ensures
        last_birth(births, i) == Some(births[k]),
    decreases births.len(),
{
    if k < births.len() - 1 {
        let t = births.drop_last();
        assert(births[births.len() - 1] == births.last());
        assert forall|j: int| k < j < t.len() implies !((#[trigger] t[j]).ty == i.ty && t[j].id
            == i.id) by {
            assert(births[j] == t[j]);
        }
        lemma_last_birth(t, i, k);
    }
}

proof fn lemma_no_birth(births: Seq<InstanceId>, i: InstanceId)
    requires
        forall|j: int|
            0 <= j < births.len() ==> !((#[trigger] births[j]).ty == i.ty && births[j].id == i.id),
    ensures
        last_birth(births, i) is None,
    decreases births.len(),
{
    if births.len() > 0 {
        let t = births.drop_last();
        assert(births[births.len() - 1] == births.last());
        assert forall|j: int| 0 <= j < t.len() implies !((#[trigger] t[j]).ty == i.ty && t[j].id
            == i.id) by {
            assert(births[j] == t[j]);
        }
        lemma_no_birth(t, i);
    }
}

/// A note names the instance whose run it is on.
pub proof fn law_notes_name_their_runs(
    insts: Seq<InstanceId>,
    declared: Seq<Seq<RFieldId>>,
    runs: Seq<RunOut>,
    n: int,
    k: int,
)
    requires
        0 <= n <= insts.len(),
        0 <= k < notes_upto(insts, declared, runs, n).len(),
    ensures
        ({
            let note = notes_upto(insts, declared, runs, n)[k];
            &&& note.local is None
            &&& exists|i: int|
                0 <= i < n && note.inst == Some(#[trigger] insts[i]) && write_notes(
                    declared[i],
                    runs[i].writes,
                ).contains(note.kind)
        }),
    decreases n,
{
    if n > 0 {
        let a = notes_upto(insts, declared, runs, n - 1);
        let kinds = write_notes(declared[n - 1], runs[n - 1].writes);
        if k < a.len() {
            law_notes_name_their_runs(insts, declared, runs, n - 1, k);
        } else {
            assert(notes_upto(insts, declared, runs, n)[k].kind == kinds[k - a.len()]);
            assert(kinds.contains(kinds[k - a.len()]));
            assert(notes_upto(insts, declared, runs, n)[k].inst == Some(insts[n - 1]));
        }
    }
}

}
