//! What the runs of a render frame come of, what they leave, and what is drawn.
use crate::entity::FieldId;
use crate::entity::InstanceId;
use crate::float64::of_int;
use crate::float64::one;
use crate::float64::F64;
use crate::float_laws::difference_of;
use crate::float_laws::law_arithmetic_is_nearest;
use crate::float_laws::lemma_zero_and_one;
use crate::float_order::law_comparison_is_the_order_of_values;
use crate::lists::lemma_first_found;
use crate::predicate::holds;
use crate::predicate::Env;
use crate::predicate::Proj;
use crate::render::continuous::scans;
use crate::render::continuous::Continuous;
use crate::render::handoff::coalesced;
use crate::render::handoff::first_of;
use crate::render::handoff::last_of;
use crate::render::handoff::law_coalesced;
use crate::render::handoff::lemma_delta_found;
use crate::render::handoff::of_cell;
use crate::render::handoff::DeltaModel;
use crate::render::interp::Elementary;
use crate::render::interp_laws::law_alpha_is_held;
use crate::render::mirror::Mirror;
use crate::render::reaction::group_of;
use crate::render::reaction::grouped;
use crate::render::reaction::Reaction;
use crate::render::store::law_live_instances_are_present;
use crate::render::store::RFieldId;
use crate::render::submission::type_packets;
use crate::render::submission::RenderBinding;
use crate::render::store::RenderStore;
use crate::render::writes::last_write;
use crate::render::writes::write_notes;
use crate::render::writes::RenderNoteKind;
use crate::runtime::lifecycle::WriteModel;
use crate::value::path_of;
use crate::value::Val;
use crate::value::Value;
use vstd::prelude::*;

verus! {

/// A write sets off a reaction where it is a write to the reaction's field, by an instance of
/// its type that did not die, and the condition holds of what was written and of what was
/// there before.
pub open spec fn sets_off(r: Reaction, deaths: Seq<InstanceId>, w: WriteModel) -> bool {
    &&& w.inst.ty == r.ty
    &&& w.field == r.sim_field
    &&& !deaths.contains(w.inst)
    &&& holds(
        r.cond,
        Env { new: w.new, old: w.old, sub: w.inst, row: |f: FieldId| Val::Null },
    )
}

/// The items are what a reaction asks for of the write.
pub open spec fn items_of(r: Reaction, w: WriteModel, items: Seq<Val>) -> bool {
    &&& items.len() == r.projs@.len()
    &&& forall|j: int|
        0 <= j < items.len() ==> match #[trigger] r.projs@[j] {
            Proj::New(p) => items[j] == w.new.get_path(path_of(p@)),
            Proj::Old(p) => items[j] == w.old.get_path(path_of(p@)),
            Proj::WriterId => items[j] == Val::Ref(w.inst),
            _ => true,
        }
}

/// The hits of a reaction are the writes that set it off, in order: each reaches the instance
/// that was written, with the items of that write.
pub proof fn law_reactions_follow_the_writes(
    r: Reaction,
    log: Seq<WriteModel>,
    deaths: Seq<InstanceId>,
    n: int,
)
    requires
        0 <= n <= log.len(),
    ensures
        ({
            let ws = log.take(n).filter(|w: WriteModel| sets_off(r, deaths, w));
            let hits = r.hits(log, deaths, n);
            &&& hits.len() == ws.len()
            &&& forall|k: int|
                0 <= k < hits.len() ==> (#[trigger] hits[k]).0 == ws[k].inst && items_of(
                    r,
                    ws[k],
                    hits[k].1,
                )
        }),
    decreases n,
{
    reveal(Seq::filter);
    let p = |w: WriteModel| sets_off(r, deaths, w);
    if n > 0 {
        law_reactions_follow_the_writes(r, log, deaths, n - 1);
        let w = log[n - 1];
        assert(log.take(n).drop_last() =~= log.take(n - 1));
        assert(log.take(n).last() == w);
        assert((|f: FieldId| Val::Null) =~= crate::render::reaction::write_env(w).row);
    }
}

/// The rows of an instance among some hits, in order.
pub open spec fn rows_for(hits: Seq<(InstanceId, Seq<Val>)>, inst: InstanceId) -> Seq<Seq<Val>> {
    hits.filter(|h: (InstanceId, Seq<Val>)| h.0 == inst).map_values(
        |h: (InstanceId, Seq<Val>)| h.1,
    )
}

/// The hits of a frame that come as one batch are gathered by instance: each instance that
/// was hit has one group, which holds its rows in order.
pub proof fn law_batches_gather_the_hits(hits: Seq<(InstanceId, Seq<Val>)>, n: int)
    requires
        0 <= n <= hits.len(),
    ensures
        ({
            let gs = grouped(hits, n);
            &&& forall|i: int, j: int|
                0 <= i < j < gs.len() ==> (#[trigger] gs[i]).0 != (#[trigger] gs[j]).0
            &&& forall|k: int|
                0 <= k < gs.len() ==> (#[trigger] gs[k]).1 == rows_for(hits.take(n), gs[k].0)
            &&& forall|i: int|
                0 <= i < n ==> exists|k: int|
                    0 <= k < gs.len() && (#[trigger] gs[k]).0 == (#[trigger] hits[i]).0
        }),
    decreases n,
{
    if n > 0 {
        law_batches_gather_the_hits(hits, n - 1);
        let s = grouped(hits, n - 1);
        let gs = grouped(hits, n);
        let (inst, row) = hits[n - 1];
        let k = crate::lists::first(s, group_of(inst));
        lemma_first_found(s, group_of(inst));
        assert(hits.take(n) =~= hits.take(n - 1).push((inst, row)));
        assert forall|x: InstanceId| #[trigger] rows_for(hits.take(n), x) == (if x == inst {
            rows_for(hits.take(n - 1), x).push(row)
        } else {
            rows_for(hits.take(n - 1), x)
        }) by {
            lemma_rows_pushed(hits.take(n - 1), inst, row, x);
        }
        if k < s.len() {
            assert(gs =~= s.update(k, (inst, s[k].1.push(row))));
            assert(s[k].0 == inst);
            assert forall|i: int, j: int| 0 <= i < j < gs.len() implies (#[trigger] gs[i]).0 != (
            #[trigger] gs[j]).0 by {
                assert(s[i].0 != s[j].0);
            }
            assert forall|j: int| 0 <= j < gs.len() implies (#[trigger] gs[j]).1 == rows_for(
                hits.take(n),
                gs[j].0,
            ) by {
                assert(s[j].1 == rows_for(hits.take(n - 1), s[j].0));
                if j != k {
                    if j < k {
                        assert(s[j].0 != s[k].0);
                    } else {
                        assert(s[k].0 != s[j].0);
                    }
                }
            }
        } else {
            assert(gs =~= s.push((inst, seq![row])));
            assert forall|j: int| 0 <= j < s.len() implies (#[trigger] s[j]).0 != inst by {
                assert(!group_of(inst)(s[j]));
            }
            assert forall|i: int, j: int| 0 <= i < j < gs.len() implies (#[trigger] gs[i]).0 != (
            #[trigger] gs[j]).0 by {
                if j < s.len() {
                    assert(s[i].0 != s[j].0);
                } else {
                    assert(s[i].0 != inst);
                }
            }
            assert forall|j: int| 0 <= j < gs.len() implies (#[trigger] gs[j]).1 == rows_for(
                hits.take(n),
                gs[j].0,
            ) by {
                if j < s.len() {
                    assert(s[j].1 == rows_for(hits.take(n - 1), s[j].0));
                    assert(s[j].0 != inst);
                } else {
                    lemma_no_rows(hits, n - 1, inst);
                    assert(seq![row] =~= Seq::<Seq<Val>>::empty().push(row));
                }
            }
        }
        assert forall|i: int| 0 <= i < n implies exists|k: int|
            0 <= k < gs.len() && (#[trigger] gs[k]).0 == (#[trigger] hits[i]).0 by {
            if i < n - 1 {
                let j = choose|j: int| 0 <= j < s.len() && (#[trigger] s[j]).0 == hits[i].0;
                assert(gs[j].0 == hits[i].0);
            } else if k < s.len() {
                assert(gs[k].0 == inst);
            } else {
                assert(gs[s.len() as int].0 == inst);
            }
        }
    }
}

proof fn lemma_rows_pushed(
    hits: Seq<(InstanceId, Seq<Val>)>,
    inst: InstanceId,
    row: Seq<Val>,
    x: InstanceId,
)
    ensures
        rows_for(hits.push((inst, row)), x) == (if x == inst {
            rows_for(hits, x).push(row)
        } else {
            rows_for(hits, x)
        }),
{
    reveal(Seq::filter);
    let p = |h: (InstanceId, Seq<Val>)| h.0 == x;
    let t = hits.push((inst, row));
    assert(t.drop_last() =~= hits);
    assert(t.last() == (inst, row));
    if x == inst {
        assert(t.filter(p) == hits.filter(p).push((inst, row)));
        assert(rows_for(t, x) =~= rows_for(hits, x).push(row));
    }
}

/// An instance without a group has no rows.
proof fn lemma_no_rows(hits: Seq<(InstanceId, Seq<Val>)>, n: int, inst: InstanceId)
    requires
        0 <= n <= hits.len(),
        forall|j: int|
            0 <= j < grouped(hits, n).len() ==> (#[trigger] grouped(hits, n)[j]).0 != inst,
        forall|i: int|
            0 <= i < n ==> exists|k: int|
                0 <= k < grouped(hits, n).len() && (#[trigger] grouped(hits, n)[k]).0 == (
                #[trigger] hits[i]).0,
    ensures
        rows_for(hits.take(n), inst) == Seq::<Seq<Val>>::empty(),
{
    assert forall|i: int| 0 <= i < n implies (#[trigger] hits[i]).0 != inst by {
        let k = choose|k: int|
            0 <= k < grouped(hits, n).len() && (#[trigger] grouped(hits, n)[k]).0 == hits[i].0;
        assert(grouped(hits, n)[k].0 != inst);
    }
    lemma_rows_none(hits.take(n), inst);
}

proof fn lemma_rows_none(hits: Seq<(InstanceId, Seq<Val>)>, inst: InstanceId)
    requires
        forall|i: int| 0 <= i < hits.len() ==> (#[trigger] hits[i]).0 != inst,
    ensures
        rows_for(hits, inst) == Seq::<Seq<Val>>::empty(),
    decreases hits.len(),
{
    reveal(Seq::filter);
    if hits.len() > 0 {
        let t = hits.drop_last();
        assert forall|i: int| 0 <= i < t.len() implies (#[trigger] t[i]).0 != inst by {
            assert(hits[i].0 != inst);
        }
        lemma_rows_none(t, inst);
        assert(hits[hits.len() - 1].0 != inst);
    }
    assert(rows_for(hits, inst) =~= Seq::<Seq<Val>>::empty());
}

/// The continuous calculations run for the instances of their type that are there: all of
/// them, or those in view where the type is culled.
pub proof fn law_who_runs_in_every_frame(
    m: Mirror,
    cs: Seq<Continuous>,
    n: int,
    k: usize,
    i: InstanceId,
)
    requires
        0 <= n <= cs.len(),
        n <= usize::MAX,
        m.wf(),
        forall|x: int| 0 <= x < cs.len() ==> m.store.known((#[trigger] cs[x]).ty),
    ensures
        scans(m, cs, n).contains((k, i)) <==> k < n && m.scanned(cs[k as int].ty).contains(i),
        m.spatial is None && k < n ==> (scans(m, cs, n).contains((k, i)) <==> i.ty
            == cs[k as int].ty && m.store.present(i)),
    decreases n,
{
    if k < n {
        law_live_instances_are_present(m.store, cs[k as int].ty);
    }
    if n > 0 {
        law_who_runs_in_every_frame(m, cs, n - 1, k, i);
        let a = scans(m, cs, n - 1);
        let insts = m.scanned(cs[n - 1].ty);
        let b = Seq::new(insts.len(), |x: int| ((n - 1) as usize, insts[x]));
        let t = scans(m, cs, n);
        assert(t == a + b);
        if t.contains((k, i)) {
            let x = choose|x: int| 0 <= x < t.len() && t[x] == (k, i);
            if x < a.len() {
                assert(a[x] == (k, i));
                assert(a.contains((k, i)));
            } else {
                assert(b[x - a.len()] == (k, i));
                assert(insts[x - a.len()] == i);
            }
        }
        if a.contains((k, i)) {
            let x = choose|x: int| 0 <= x < a.len() && a[x] == (k, i);
            assert(t[x] == (k, i));
        }
        if k == n - 1 && insts.contains(i) {
            let x = choose|x: int| 0 <= x < insts.len() && insts[x] == i;
            assert(b[x] == (k, i));
            assert(t[a.len() + x] == (k, i));
        }
    }
}

/// A field that a run wrote several times holds what was written last.
pub proof fn law_the_last_write_stays(writes: Seq<(RFieldId, Value)>, f: RFieldId, k: int)
    requires
        0 <= k < writes.len(),
    ensures
        writes[k].0 == f && (forall|j: int| k < j < writes.len() ==> (#[trigger] writes[j]).0 != f)
            ==> last_write(writes, f) == Some(writes[k].1@),
        last_write(writes, f) is None ==> writes[k].0 != f,
    decreases writes.len(),
{
    if k < writes.len() - 1 {
        let t = writes.drop_last();
        law_the_last_write_stays(t, f, k);
        if writes[k].0 == f && (forall|j: int|
            k < j < writes.len() ==> (#[trigger] writes[j]).0 != f) {
            assert(writes[writes.len() - 1].0 != f);
            assert forall|j: int| k < j < t.len() implies (#[trigger] t[j]).0 != f by {
                assert(writes[j].0 != f);
            }
        }
    }
}

/// A write to a field that is not declared is noted, and nothing else is noted as one.
pub proof fn law_undeclared_writes_are_noted(
    declared: Seq<RFieldId>,
    writes: Seq<(RFieldId, Value)>,
    f: RFieldId,
)
    ensures
        write_notes(declared, writes).contains(RenderNoteKind::UndeclaredWrite(f)) <==> exists|
            k: int,
        |
            0 <= k < writes.len() && (#[trigger] writes[k]).0 == f && !declared.contains(f),
    decreases writes.len(),
{
    let note = RenderNoteKind::UndeclaredWrite(f);
    if writes.len() > 0 {
        let t = writes.drop_last();
        law_undeclared_writes_are_noted(declared, t, f);
        lemma_noted(declared, writes, note);
        let a = write_notes(declared, t);
        let n = writes.len() - 1;
        if a.contains(note) {
            let k = choose|k: int|
                0 <= k < t.len() && (#[trigger] t[k]).0 == f && !declared.contains(f);
            assert(writes[k].0 == f);
        }
        if exists|k: int|
            0 <= k < writes.len() && (#[trigger] writes[k]).0 == f && !declared.contains(f) {
            let k = choose|k: int|
                0 <= k < writes.len() && (#[trigger] writes[k]).0 == f && !declared.contains(f);
            if k < n {
                assert(t[k].0 == f);
            }
        }
        if writes[n].0 == f && !declared.contains(f) {
            assert(write_notes(declared, writes).contains(note));
        }
    }
}

/// What the last write adds to the notes.
proof fn lemma_noted(
    declared: Seq<RFieldId>,
    writes: Seq<(RFieldId, Value)>,
    note: RenderNoteKind,
)
    requires
        writes.len() > 0,
    ensures
        write_notes(declared, writes).contains(note) <==> write_notes(
            declared,
            writes.drop_last(),
        ).contains(note) || note == RenderNoteKind::UndeclaredWrite(writes.last().0)
            && !declared.contains(writes.last().0) || (note == RenderNoteKind::Conflict(
            writes.last().0,
        ) && declared.contains(writes.last().0) && last_write(
            writes.drop_last(),
            writes.last().0,
        ) is Some && !last_write(writes.drop_last(), writes.last().0)->0.same(writes.last().1@)),
{
    let a = write_notes(declared, writes.drop_last());
    let b = write_notes(declared, writes);
    if a.contains(note) {
        let i = choose|i: int| 0 <= i < a.len() && a[i] == note;
        assert(b[i] == note);
    }
    if b.contains(note) {
        let i = choose|i: int| 0 <= i < b.len() && b[i] == note;
        if i < a.len() {
            assert(a[i] == note);
        }
    }
    if b.len() > a.len() {
        assert(b[a.len() as int] == b.last());
    }
}

/// Two writes of a run to a declared field, one right after the other, are a conflict where
/// their values differ, and only then.
pub proof fn law_differing_writes_conflict(
    declared: Seq<RFieldId>,
    writes: Seq<(RFieldId, Value)>,
    f: RFieldId,
)
    ensures
        write_notes(declared, writes).contains(RenderNoteKind::Conflict(f)) <==> exists|
            i: int,
            j: int,
        | #[trigger] conflict(declared, writes, f, i, j),
    decreases writes.len(),
{
    let note = RenderNoteKind::Conflict(f);
    if writes.len() > 0 {
        let t = writes.drop_last();
        let n = writes.len() - 1;
        law_differing_writes_conflict(declared, t, f);
        lemma_noted(declared, writes, note);
        if write_notes(declared, t).contains(note) {
            let (i, j) = choose|i: int, j: int| #[trigger] conflict(declared, t, f, i, j);
            lemma_conflict_kept(declared, writes, f, i, j);
        }
        if exists|i: int, j: int| #[trigger] conflict(declared, writes, f, i, j) {
            let (i, j) = choose|i: int, j: int| #[trigger] conflict(declared, writes, f, i, j);
            if j < n {
                lemma_conflict_kept(declared, writes, f, i, j);
            } else {
                assert forall|x: int| i < x < t.len() implies (#[trigger] t[x]).0 != f by {
                    assert(writes[x].0 != f);
                }
                law_the_last_write_stays(t, f, i);
            }
        }
        if writes.last().0 == f && declared.contains(f) && last_write(t, f) is Some && !last_write(
            t,
            f,
        )->0.same(writes.last().1@) {
            let i = lemma_last_at(t, f);
            assert(conflict(declared, writes, f, i, n)) by {
                assert(writes[i] == t[i]);
                assert forall|x: int| i < x < n implies (#[trigger] writes[x]).0 != f by {
                    assert(t[x].0 != f);
                }
            }
        }
    }
}

/// The writes at `i` and `j` go to the field, none between them does, and they differ.
pub open spec fn conflict(
    declared: Seq<RFieldId>,
    writes: Seq<(RFieldId, Value)>,
    f: RFieldId,
    i: int,
    j: int,
) -> bool {
    &&& 0 <= i < j < writes.len()
    &&& declared.contains(f)
    &&& writes[i].0 == f
    &&& writes[j].0 == f
    &&& forall|x: int| i < x < j ==> (#[trigger] writes[x]).0 != f
    &&& !writes[i].1@.same(writes[j].1@)
}

proof fn lemma_conflict_kept(
    declared: Seq<RFieldId>,
    writes: Seq<(RFieldId, Value)>,
    f: RFieldId,
    i: int,
    j: int,
)
    requires
        0 <= j < writes.len() - 1,
    ensures
        conflict(declared, writes.drop_last(), f, i, j) <==> conflict(declared, writes, f, i, j),
{
    let t = writes.drop_last();
    if conflict(declared, t, f, i, j) {
        assert forall|x: int| i < x < j implies (#[trigger] writes[x]).0 != f by {
            assert(t[x].0 != f);
        }
    }
    if conflict(declared, writes, f, i, j) {
        assert forall|x: int| i < x < j implies (#[trigger] t[x]).0 != f by {
            assert(writes[x].0 != f);
        }
    }
}

proof fn lemma_last_at(writes: Seq<(RFieldId, Value)>, f: RFieldId) -> (k: int)
    requires
        last_write(writes, f) is Some,
    ensures
        0 <= k < writes.len(),
        writes[k].0 == f,
        last_write(writes, f) == Some(writes[k].1@),
        forall|j: int| k < j < writes.len() ==> (#[trigger] writes[j]).0 != f,
    decreases writes.len(),
{
    if writes.last().0 == f {
        writes.len() - 1
    } else {
        let t = writes.drop_last();
        let k = lemma_last_at(t, f);
        assert forall|j: int| k < j < writes.len() implies (#[trigger] writes[j]).0 != f by {
            if j < t.len() {
                assert(t[j].0 != f);
            }
        }
        k
    }
}

/// The distance that is noted of what is in view is asked of the host for the way from the
/// camera to the instance, along both axes.
pub proof fn law_distances_are_from_the_camera<S, A, H>(
    before: Mirror,
    after: Mirror,
    math: Elementary<S, A, H>,
    eye: (F64, F64),
    at: (F64, F64),
    i: InstanceId,
    f: RFieldId,
) -> (r: (F64, F64)) where S: Fn(F64) -> F64, A: Fn(F64) -> F64, H: Fn(F64, F64) -> F64
    requires
        after.after_view(before, math),
        before.spatial is Some,
        before.spatial->0.eye(before.store) == Some(eye),
        before.measured(eye, i, f),
        before.grid_at(i) == Some(at),
        eye.0.finite() && eye.1.finite(),
        at.0.finite() && at.1.finite(),
    ensures
        after.store.value(i, f) is Float,
        math.hypot.ensures(r, after.store.value(i, f)->Float_0),
        r.0.finite() ==> difference_of(r.0, at.0, eye.0),
        r.1.finite() ==> difference_of(r.1, at.1, eye.1),
{
    let (x, y) = at;
    law_arithmetic_is_nearest(x, eye.0);
    law_arithmetic_is_nearest(y, eye.1);
    assert(after.store.value(i, f) is Float);
    (x.sub_spec(eye.0), y.sub_spec(eye.1))
}

/// A mirror spans what a frame changed: from the value before the first change of the frame
/// to the value after its last. That of a newborn rests on the latter.
pub proof fn law_mirrors_span_the_frame(
    before: Mirror,
    after: Mirror,
    ds: Seq<DeltaModel>,
    births: Seq<InstanceId>,
    i: InstanceId,
    t: int,
    a: int,
    b: int,
)
    requires
        after.after_changes(before, coalesced(ds), births),
        after.store.present(i),
        after.store.slot_known(i.ty, t),
        first_of(ds, a, i, after.store.at(i.ty).tracks@[t].sim_field),
        last_of(ds, b, i, after.store.at(i.ty).tracks@[t].sim_field),
    ensures
        after.store.pair(i, t).1 == ds[b].new,
        births.contains(i) ==> after.store.pair(i, t).0 == ds[b].new,
        !births.contains(i) ==> after.store.pair(i, t).0 == ds[a].old,
{
    let f = after.store.at(i.ty).tracks@[t].sim_field;
    let cs = coalesced(ds);
    law_coalesced(ds);
    lemma_delta_found(cs, i, f);
    assert(of_cell(ds[a], i, f));
    let k = crate::render::handoff::delta_at(cs, i, f);
    assert(k < cs.len());
    let c = cs[k];
    let x = choose|x: int| first_of(ds, x, c.inst, c.sim_field) && (#[trigger] ds[x]).old == c.old;
    let y = choose|y: int| last_of(ds, y, c.inst, c.sim_field) && (#[trigger] ds[y]).new == c.new;
    if x < a {
        assert(!of_cell(ds[x], i, f));
    } else if a < x {
        assert(!of_cell(ds[a], i, f));
    }
    if y < b {
        assert(!of_cell(ds[b], i, f));
    } else if b < y {
        assert(!of_cell(ds[y], i, f));
    }
    assert(after.store.pair(i, t) == after.store.pair(i, t));
}

/// A packet shows the fields that are bound to its parts, each in its place, and nothing where
/// no field is bound.
pub proof fn law_packets_show_what_is_bound(
    b: RenderBinding,
    read: spec_fn(RFieldId) -> Val,
    f: RFieldId,
)
    ensures
        b.translation == Some(f) ==> b.shows(read).translation == read(f),
        b.rotation == Some(f) ==> b.shows(read).rotation == read(f),
        b.scale == Some(f) ==> b.shows(read).scale == read(f),
        b.mesh == Some(f) ==> b.shows(read).mesh == read(f),
        b.material == Some(f) ==> b.shows(read).material == read(f),
        b.anim_state == Some(f) ==> b.shows(read).anim_state == read(f),
        b.anim_phase == Some(f) && read(f).num() is Some ==> Some(b.shows(read).anim_phase)
            == read(f).num(),
        b.translation is None ==> b.shows(read).translation is Null,
        b.rotation is None ==> b.shows(read).rotation is Null,
        b.scale is None ==> b.shows(read).scale is Null,
        b.mesh is None ==> b.shows(read).mesh is Null,
        b.material is None ==> b.shows(read).material is Null,
        b.anim_state is None ==> b.shows(read).anim_state is Null,
        b.anim_phase is None ==> b.shows(read).anim_phase.scaled() == 0,
{
    lemma_zero_and_one();
}

/// Something is hidden where its visibility is off or nothing is left of it; without a field
/// to fade by, the whole is left, and a field without a number leaves nothing.
pub proof fn law_what_is_hidden(b: RenderBinding, read: spec_fn(RFieldId) -> Val, f: RFieldId)
    ensures
        b.visibility == Some(f) && read(f) == Val::Bool(false) ==> b.hides(read),
        b.fade == Some(f) && read(f).num() is Some && read(f).num()->0.finite() ==> {
            let x = read(f).num()->0.scaled();
            &&& x <= 0 ==> b.hides(read)
            &&& x > 0 && b.visibility is None ==> !b.hides(read)
            &&& 0 <= x <= one() ==> b.shows(read).fade.scaled() == x
            &&& x > one() ==> b.shows(read).fade.scaled() == one()
            &&& x < 0 ==> b.shows(read).fade.scaled() == 0
        },
        b.fade == Some(f) && read(f).num() is None ==> b.hides(read),
        b.fade is None ==> b.shows(read).fade.scaled() == one(),
        b.fade is None && b.visibility is None ==> !b.hides(read),
        b.fade is None && b.visibility == Some(f) ==> (b.hides(read) <==> read(f) == Val::Bool(
            false,
        )),
{
    let z = of_int(0);
    let u = of_int(1);
    lemma_zero_and_one();
    law_comparison_is_the_order_of_values(z, u);
    law_comparison_is_the_order_of_values(z, z);
    if b.fade == Some(f) && read(f).num() is Some && read(f).num()->0.finite() {
        let x = read(f).num()->0;
        law_alpha_is_held(x);
        law_comparison_is_the_order_of_values(z, crate::render::clock::unit(x));
    }
}

/// The packets of a type are those of the instances that are there and not hidden, in order.
pub proof fn law_packets_of_a_type(
    store: RenderStore,
    b: RenderBinding,
    insts: Seq<InstanceId>,
    n: int,
)
    requires
        0 <= n <= insts.len(),
    ensures
        ({
            let read = |i: InstanceId| (|f: RFieldId| store.value(i, f));
            let shown = insts.take(n).filter(
                |i: InstanceId| store.present(i) && !b.hides(read(i)),
            );
            let ps = type_packets(store, b, insts, n);
            &&& ps.len() == shown.len()
            &&& forall|k: int|
                0 <= k < ps.len() ==> (#[trigger] ps[k]).0 == shown[k] && ps[k].1 == b.shows(
                    read(shown[k]),
                )
        }),
    decreases n,
{
    reveal(Seq::filter);
    let read = |i: InstanceId| (|f: RFieldId| store.value(i, f));
    let p = |i: InstanceId| store.present(i) && !b.hides(read(i));
    if n > 0 {
        law_packets_of_a_type(store, b, insts, n - 1);
        let i = insts[n - 1];
        assert(insts.take(n).drop_last() =~= insts.take(n - 1));
        assert(insts.take(n).last() == i);
        assert(read(i) =~= crate::render::submission::fields_of(store, i));
    }
}

}
