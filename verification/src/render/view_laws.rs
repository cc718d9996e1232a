//! What a published frame tells of its writes, and what the camera has in view.
use crate::entity::EntityTypeId;
use crate::entity::FieldId;
use crate::entity::InstanceId;
use crate::entity::FIELD_ALIVE;
use crate::float64::F64;
use crate::render::handoff::coalesced;
use crate::render::handoff::deltas_of;
use crate::render::handoff::first_of;
use crate::render::handoff::last_of;
use crate::render::handoff::law_births_and_deaths;
use crate::render::handoff::law_coalesced;
use crate::render::handoff::lemma_delta_found;
use crate::render::handoff::of_cell;
use crate::render::handoff::tracked_writes;
use crate::render::handoff::SimFrame;
use crate::render::handoff::DeltaModel;
use crate::render::ingest::change_of;
use crate::render::interp::Elementary;
use crate::render::mirror::Mirror;
use crate::render::sight_laws::law_planes_keep_their_components;
use crate::render::sight_laws::law_rectangles_are_around_the_camera;
use crate::lists::lemma_first;
use crate::lists::lemma_kept;
use crate::render::culling::CulledType;
use crate::render::store::law_live_instances_are_present;
use crate::render::store::RFieldId;
use crate::render::store::RenderStore;
use crate::render::submission::candidates;
use crate::render::submission::lemma_bucket_at;
use crate::render::submission::Bucket;
use crate::render::visible::Axes;
use crate::render::visible::CullShape;
use crate::runtime::lifecycle::WriteModel;
use crate::value::Val;
use vstd::prelude::*;

verus! {

/// The write at `a` is the first of the first `n` to the cell.
pub open spec fn first_write(
    log: Seq<WriteModel>,
    n: int,
    a: int,
    inst: InstanceId,
    f: FieldId,
) -> bool {
    &&& 0 <= a < n
    &&& log[a].inst == inst && log[a].field == f
    &&& forall|x: int| 0 <= x < a ==> !((#[trigger] log[x]).inst == inst && log[x].field == f)
}

/// The write at `b` is the last of the first `n` to the cell.
pub open spec fn final_write(
    log: Seq<WriteModel>,
    n: int,
    b: int,
    inst: InstanceId,
    f: FieldId,
) -> bool {
    &&& 0 <= b < n
    &&& log[b].inst == inst && log[b].field == f
    &&& forall|x: int| b < x < n ==> !((#[trigger] log[x]).inst == inst && log[x].field == f)
}

/// A tracked write is among the changes.
proof fn lemma_told(
    fields: Seq<(EntityTypeId, FieldId)>,
    log: Seq<WriteModel>,
    n: int,
    inst: InstanceId,
    f: FieldId,
    a: int,
) -> (i: int)
    requires
        0 <= a < n <= log.len(),
        fields.contains((inst.ty, f)),
        log[a].inst == inst && log[a].field == f,
    ensures
        0 <= i < tracked_writes(fields, log, n).len(),
        of_cell(tracked_writes(fields, log, n)[i], inst, f),
    decreases n,
{
    let es = tracked_writes(fields, log, n - 1);
    let ds = tracked_writes(fields, log, n);
    if a < n - 1 {
        let i = lemma_told(fields, log, n - 1, inst, f, a);
        assert(ds[i] == es[i]);
        i
    } else {
        assert(ds[es.len() as int] == crate::render::handoff::delta_of(log[a]));
        es.len() as int
    }
}

/// The first change of a tracked cell is its first write.
proof fn lemma_told_first(
    fields: Seq<(EntityTypeId, FieldId)>,
    log: Seq<WriteModel>,
    n: int,
    inst: InstanceId,
    f: FieldId,
    i: int,
) -> (a: int)
    requires
        0 <= n <= log.len(),
        fields.contains((inst.ty, f)),
        first_of(tracked_writes(fields, log, n), i, inst, f),
    ensures
        first_write(log, n, a, inst, f),
        log[a].old == tracked_writes(fields, log, n)[i].old,
    decreases n,
{
    let es = tracked_writes(fields, log, n - 1);
    let ds = tracked_writes(fields, log, n);
    if i < es.len() {
        assert(ds[i] == es[i]);
        assert forall|x: int| 0 <= x < i implies !of_cell(#[trigger] es[x], inst, f) by {
            assert(ds[x] == es[x]);
        }
        lemma_told_first(fields, log, n - 1, inst, f, i)
    } else {
        assert forall|x: int| 0 <= x < n - 1 implies !((#[trigger] log[x]).inst == inst
            && log[x].field == f) by {
            if log[x].inst == inst && log[x].field == f {
                let j = lemma_told(fields, log, n - 1, inst, f, x);
                assert(ds[j] == es[j]);
            }
        }
        n - 1
    }
}

/// The last change of a tracked cell is its last write.
proof fn lemma_told_last(
    fields: Seq<(EntityTypeId, FieldId)>,
    log: Seq<WriteModel>,
    n: int,
    inst: InstanceId,
    f: FieldId,
    i: int,
) -> (b: int)
    requires
        0 <= n <= log.len(),
        fields.contains((inst.ty, f)),
        last_of(tracked_writes(fields, log, n), i, inst, f),
    ensures
        final_write(log, n, b, inst, f),
        log[b].new == tracked_writes(fields, log, n)[i].new,
    decreases n,
{
    let es = tracked_writes(fields, log, n - 1);
    let ds = tracked_writes(fields, log, n);
    if i < es.len() {
        assert(ds[i] == es[i]);
        assert forall|x: int| i < x < es.len() implies !of_cell(#[trigger] es[x], inst, f) by {
            assert(ds[x] == es[x]);
        }
        let b = lemma_told_last(fields, log, n - 1, inst, f, i);
        if ds.len() > es.len() {
            assert(!of_cell(ds[es.len() as int], inst, f));
        }
        b
    } else {
        n - 1
    }
}

/// A published frame tells of each tracked cell that was written one change: from the value
/// before its first write to the value after its last.
pub proof fn law_frames_tell_the_changes(
    sf: SimFrame,
    fields: Seq<(EntityTypeId, FieldId)>,
    frame: u64,
    log: Seq<WriteModel>,
    inst: InstanceId,
    f: FieldId,
    a: int,
    b: int,
)
    requires
        sf.made_of(fields, frame, log),
        fields.contains((inst.ty, f)),
        first_write(log, log.len() as int, a, inst, f),
        final_write(log, log.len() as int, b, inst, f),
    ensures
        exists|k: int|
            {
                &&& 0 <= k < sf.changes@.len()
                &&& (#[trigger] sf.changes@[k]).inst == inst
                &&& sf.changes@[k].sim_field == f
                &&& sf.changes@[k].old@ == log[a].old
                &&& sf.changes@[k].new@ == log[b].new
            },
{
    let n = log.len() as int;
    let ds = tracked_writes(fields, log, n);
    let cs = coalesced(ds);
    law_coalesced(ds);
    lemma_delta_found(cs, inst, f);
    let x = lemma_told(fields, log, n, inst, f, a);
    assert(ds[x].inst == inst);
    let k = crate::render::handoff::delta_at(cs, inst, f);
    let c = cs[k];
    let i = choose|i: int| first_of(ds, i, c.inst, c.sim_field) && (#[trigger] ds[i]).old == c.old;
    let j = choose|j: int| last_of(ds, j, c.inst, c.sim_field) && (#[trigger] ds[j]).new == c.new;
    let p = lemma_told_first(fields, log, n, inst, f, i);
    let q = lemma_told_last(fields, log, n, inst, f, j);
    if p < a {
        assert(!(log[p].inst == inst && log[p].field == f));
    } else if a < p {
        assert(!(log[a].inst == inst && log[a].field == f));
    }
    if q < b {
        assert(!(log[b].inst == inst && log[b].field == f));
    } else if b < q {
        assert(!(log[q].inst == inst && log[q].field == f));
    }
    assert(deltas_of(sf.changes@)[k] == sf.changes@[k]@);
}

/// A published frame tells who was born and who died, and every write as it was made.
pub proof fn law_frames_tell_births_and_deaths(
    sf: SimFrame,
    fields: Seq<(EntityTypeId, FieldId)>,
    frame: u64,
    log: Seq<WriteModel>,
    inst: InstanceId,
)
    requires
        sf.made_of(fields, frame, log),
    ensures
        sf.sim_frame == frame,
        sf.births@.contains(inst) <==> exists|i: int|
            0 <= i < log.len() && (#[trigger] log[i]).inst == inst && log[i].field.0
                == FIELD_ALIVE && log[i].new == Val::Bool(true),
        sf.deaths@.contains(inst) <==> exists|i: int|
            0 <= i < log.len() && (#[trigger] log[i]).inst == inst && log[i].field.0
                == FIELD_ALIVE && log[i].new == Val::Bool(false),
        sf.events@.len() == log.len(),
        forall|i: int| 0 <= i < log.len() ==> (#[trigger] sf.events@[i])@ == log[i],
{
    law_births_and_deaths(log, true, log.len() as int);
    law_births_and_deaths(log, false, log.len() as int);
    assert forall|i: int| 0 <= i < log.len() implies (#[trigger] sf.events@[i])@ == log[i] by {
        assert(crate::runtime::lifecycle::log_of(sf.events@)[i] == sf.events@[i]@);
    }
}

/// The two numbers of a position that a plane keeps.
pub open spec fn on_plane(axes: Axes, p: (F64, F64, F64)) -> (F64, F64) {
    match axes {
        Axes::XY => (p.0, p.1),
        Axes::XZ => (p.0, p.2),
        Axes::YZ => (p.1, p.2),
    }
}

/// Through a rectangle the camera has in view those of a culled type that are there and stand
/// no further from the camera, to either side, than half the rectangle's size.
pub proof fn law_who_is_in_view<S, A, H>(
    before: Mirror,
    after: Mirror,
    math: Elementary<S, A, H>,
    k: int,
    i: InstanceId,
    p: (F64, F64, F64),
    at: (F64, F64),
    hx: F64,
    hy: F64,
    side: (F64, F64, F64, F64),
) where S: Fn(F64) -> F64, A: Fn(F64) -> F64, H: Fn(F64, F64) -> F64
    requires
        before.wf(),
        after.after_view(before, math),
        before.spatial is Some,
        after.spatial is Some,
        ({
            let sp = before.spatial->0;
            let (cx, cy) = on_plane(sp.axes, p);
            &&& sp.shape == (CullShape::Aabb { hx, hy })
            &&& before.store.present(sp.camera)
            &&& before.store.value(sp.camera, sp.cam_pos) == Val::Vec3(p.0, p.1, p.2)
            &&& 0 <= k < after.spatial->0.visible@.len()
            &&& k < sp.culled@.len()
            &&& cx.finite() && cy.finite() && hx.finite() && hy.finite()
            &&& sp.grid.has(i)
            &&& sp.grid.entry(i).x == at.0 && sp.grid.entry(i).y == at.1
            &&& at.0.finite() && at.1.finite()
            &&& side.0.finite() && side.0.scaled() == cx.scaled() - hx.scaled()
            &&& side.1.finite() && side.1.scaled() == cy.scaled() - hy.scaled()
            &&& side.2.finite() && side.2.scaled() == cx.scaled() + hx.scaled()
            &&& side.3.finite() && side.3.scaled() == cy.scaled() + hy.scaled()
        }),
    ensures
        ({
            let sp = before.spatial->0;
            let (cx, cy) = on_plane(sp.axes, p);
            &&& after.spatial->0.active
            &&& after.spatial->0.visible@[k].insts@.contains(i) <==> {
                &&& i.ty == sp.culled@[k].ty
                &&& before.store.present(i)
                &&& -hx.scaled() <= at.0.scaled() - cx.scaled() <= hx.scaled()
                &&& -hy.scaled() <= at.1.scaled() - cy.scaled() <= hy.scaled()
            }
        }),
{
    let sp = before.spatial->0;
    let (cx, cy) = on_plane(sp.axes, p);
    law_planes_keep_their_components(p.0, p.1, p.2, Val::Null);
    law_rectangles_are_around_the_camera(sp.grid, i, cx, cy, hx, hy, side);
    assert(sp.eye(before.store) == Some((cx, cy)));
    let b = after.spatial->0.visible@[k];
    assert(b.insts@.contains(i) <==> i.ty == sp.culled@[k].ty && before.store.present(i)
        && sp.covers((cx, cy))(i));
}

/// The distance of an instance is noted where it is there, in view, of a culled type, and in
/// the field that the type was declared with.
pub proof fn law_whose_distance_is_noted(
    m: Mirror,
    eye: (F64, F64),
    i: InstanceId,
    f: RFieldId,
    k: int,
)
    requires
        m.wf(),
        m.spatial is Some,
        0 <= k < m.spatial->0.culled@.len(),
        m.spatial->0.culled@[k].ty == i.ty,
    ensures
        m.measured(eye, i, f) <==> {
            &&& m.store.present(i)
            &&& m.spatial->0.shape.sees(m.spatial->0.grid, eye.0, eye.1, i)
            &&& m.spatial->0.culled@[k].dist_field == Some(f)
        },
{
    lemma_culling(m, i.ty, k);
}

/// The declaration of a culled type is the one that names it.
proof fn lemma_culling(m: Mirror, ty: EntityTypeId, k: int)
    requires
        m.wf(),
        m.spatial is Some,
        0 <= k < m.spatial->0.culled@.len(),
        m.spatial->0.culled@[k].ty == ty,
    ensures
        m.spatial->0.culling(ty) == Some(m.spatial->0.culled@[k]),
        m.culling(ty) == Some(m.spatial->0.culled@[k]),
{
    let cs = m.spatial->0.culled@;
    assert(m.spatial->0.wf());
    assert forall|j: int| 0 <= j < k implies (#[trigger] cs[j]).ty != ty by {
        assert(cs[j].ty != cs[k].ty);
    }
    lemma_first(cs, |c: CulledType| c.ty == ty, k);
}

/// Where the camera has a view, the calculations of a culled type run for those in view that
/// are there, and for no others; without a view, and for types that are not culled, for all
/// that are there.
pub proof fn law_calculations_run_in_view(m: Mirror, ty: EntityTypeId, i: InstanceId, k: int)
    requires
        m.wf(),
        m.store.known(ty),
    ensures
        m.spatial is Some && m.spatial->0.active && 0 <= k < m.spatial->0.culled@.len()
            && m.spatial->0.culled@[k].ty == ty ==> (m.scanned(ty).contains(i)
            <==> m.spatial->0.visible@[k].insts@.contains(i) && m.store.present(i)),
        m.spatial is None || !m.spatial->0.active || (forall|j: int|
            0 <= j < m.spatial->0.culled@.len() ==> (#[trigger] m.spatial->0.culled@[j]).ty != ty)
            ==> (m.scanned(ty).contains(i) <==> i.ty == ty && m.store.present(i)),
{
    law_live_instances_are_present(m.store, ty);
    if m.spatial is Some {
        let sp = m.spatial->0;
        assert(sp.wf());
        let here = |x: InstanceId| m.store.present(x);
        if 0 <= k < sp.culled@.len() && sp.culled@[k].ty == ty {
            lemma_culling(m, ty, k);
            assert forall|j: int| 0 <= j < k implies (#[trigger] sp.visible@[j]).ty != ty by {
                assert(sp.culled@[j].ty != sp.culled@[k].ty);
                assert(sp.visible@[j].ty == sp.culled@[j].ty);
            }
            assert(sp.visible@[k].ty == ty);
            lemma_bucket_at(sp.visible@, ty, k);
            lemma_kept(sp.visible@[k].insts@, here);
        }
        if forall|j: int| 0 <= j < sp.culled@.len() ==> (#[trigger] sp.culled@[j]).ty != ty {
            lemma_first(sp.culled@, |c: CulledType| c.ty == ty, sp.culled@.len() as int);
        }
    }
}

/// What is drawn of a type is chosen from those in view where the type has a bucket, and
/// otherwise from all that are there.
pub proof fn law_who_may_be_drawn(
    store: RenderStore,
    visible: Option<Seq<Bucket>>,
    ty: EntityTypeId,
    k: int,
    i: InstanceId,
)
    requires
        store.wf(),
        store.known(ty),
    ensures
        visible is Some && 0 <= k < visible->0.len() && visible->0[k].ty == ty && (forall|j: int|
            0 <= j < k ==> (#[trigger] visible->0[j]).ty != ty) ==> candidates(store, visible, ty)
            == visible->0[k].insts@,
        visible is None || (forall|j: int|
            0 <= j < visible->0.len() ==> (#[trigger] visible->0[j]).ty != ty) ==> (candidates(
            store,
            visible,
            ty,
        ).contains(i) <==> i.ty == ty && store.present(i)),
{
    law_live_instances_are_present(store, ty);
    if visible is Some {
        let bs = visible->0;
        if 0 <= k < bs.len() && bs[k].ty == ty && (forall|j: int|
            0 <= j < k ==> (#[trigger] bs[j]).ty != ty) {
            lemma_bucket_at(bs, ty, k);
        }
        if forall|j: int| 0 <= j < bs.len() ==> (#[trigger] bs[j]).ty != ty {
            lemma_bucket_at(bs, ty, bs.len() as int);
        }
    }
}

/// While it moves, an instance of a culled type stands in the grid where it is shown: at the
/// two numbers of its output that the plane keeps, if the grid holds them.
pub proof fn law_the_moving_stand_where_they_are_shown<S, A, H>(
    before: Mirror,
    after: Mirror,
    alpha: F64,
    math: Elementary<S, A, H>,
    i: InstanceId,
    ti: usize,
    k: int,
    p: (F64, F64, F64),
) where S: Fn(F64) -> F64, A: Fn(F64) -> F64, H: Fn(F64, F64) -> F64
    requires
        before.wf(),
        after.after_sweep(before, alpha, math),
        before.spatial is Some,
        before.active@.contains((i, ti)),
        before.store.present(i),
        0 <= k < before.spatial->0.culled@.len(),
        before.spatial->0.culled@[k].ty == i.ty,
        before.tracks@[ti as int].slot == before.spatial->0.culled@[k].track_slot,
        after.store.value(i, before.tracks@[ti as int].out) == Val::Vec3(p.0, p.1, p.2),
        p.0.finite() && p.1.finite() && p.2.finite(),
    ensures
        ({
            let sp = before.spatial->0;
            let (x, y) = on_plane(sp.axes, p);
            after.grid_at(i) == if sp.grid.holds(x, y) {
                Some((x, y))
            } else {
                None
            }
        }),
{
    lemma_culling(before, i.ty, k);
    law_planes_keep_their_components(p.0, p.1, p.2, Val::Null);
    assert(before.places((i, ti)));
    assert(after.grid_at(i) == before.place(
        after.store.value(i, before.tracks@[ti as int].out),
    ));
}

/// A culled instance whose position changed stands in the grid where it moves to.
pub proof fn law_changes_move_the_culled(
    before: Mirror,
    after: Mirror,
    ds: Seq<DeltaModel>,
    births: Seq<InstanceId>,
    i: InstanceId,
    k: int,
    d: DeltaModel,
    p: (F64, F64, F64),
)
    requires
        before.wf(),
        after.after_changes(before, ds, births),
        before.spatial is Some,
        before.store.present(i),
        0 <= k < before.spatial->0.culled@.len(),
        before.spatial->0.culled@[k].ty == i.ty,
        change_of(ds, i, before.spatial->0.culled@[k].translation_field) == Some(d),
        d.new == Val::Vec3(p.0, p.1, p.2),
        p.0.finite() && p.1.finite() && p.2.finite(),
    ensures
        ({
            let sp = before.spatial->0;
            let (x, y) = on_plane(sp.axes, p);
            after.grid_at(i) == if sp.grid.holds(x, y) {
                Some((x, y))
            } else {
                None
            }
        }),
{
    lemma_culling(before, i.ty, k);
    law_planes_keep_their_components(p.0, p.1, p.2, Val::Null);
    assert(after.grid_at(i) == before.place(d.new));
}

}
