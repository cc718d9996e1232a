//! The writes of one run: one value per field, within what the calculation declares.
use crate::entity::InstanceId;
use crate::render::local::LocalError;
use crate::render::local::RenderLocalId;
use crate::render::store::RFieldId;
use crate::render::store::RenderStore;
use crate::value::Val;
use crate::value::Value;
use vstd::prelude::*;

verus! {

/// Who writes a render field.
#[derive(Clone, Copy, Debug, PartialEq, Eq, Structural)]
pub enum Owner {
    /// A tracked field's interpolation.
    Track(u32),
    Reaction(u32),
    Continuous(u32),
    /// The fading of the dead.
    Fade,
    /// The distance to the camera.
    Distance,
}

/// What went against the declarations of a calculation.
#[derive(Clone, Copy, Debug, PartialEq, Eq, Structural)]
pub enum RenderNoteKind {
    /// Several writes of a run to one field had different values. The last one stands.
    Conflict(RFieldId),
    /// A field was written that the calculation does not declare. The write is dropped.
    UndeclaredWrite(RFieldId),
    /// A local entity could not be made.
    Local(LocalError),
}

/// A note on a run. Local calculations and requests have no instance of the simulation.
#[derive(Clone, Copy, Debug, PartialEq, Eq, Structural)]
pub struct RenderNote {
    pub inst: Option<InstanceId>,
    pub local: Option<RenderLocalId>,
    pub kind: RenderNoteKind,
}

/// The value that a run leaves in a field: the last one written.
pub open spec fn last_write(writes: Seq<(RFieldId, Value)>, f: RFieldId) -> Option<Val>
    decreases writes.len(),
{
    if writes.len() == 0 {
        None
    } else if writes.last().0 == f {
        Some(writes.last().1@)
    } else {
        last_write(writes.drop_last(), f)
    }
}

/// The notes on the writes of a run.
pub open spec fn write_notes(
    declared: Seq<RFieldId>,
    writes: Seq<(RFieldId, Value)>,
) -> Seq<RenderNoteKind>
    decreases writes.len(),
{
    if writes.len() == 0 {
        Seq::empty()
    } else {
        let before = write_notes(declared, writes.drop_last());
        let (f, v) = writes.last();
        if !declared.contains(f) {
            before.push(RenderNoteKind::UndeclaredWrite(f))
        } else {
            match last_write(writes.drop_last(), f) {
                Some(w) if !w.same(v@) => before.push(RenderNoteKind::Conflict(f)),
                _ => before,
            }
        }
    }
}

/// The same notes, with their run.
pub open spec fn notes_of(
    inst: Option<InstanceId>,
    local: Option<RenderLocalId>,
    kinds: Seq<RenderNoteKind>,
) -> Seq<RenderNote> {
    Seq::new(kinds.len(), |i: int| RenderNote { inst, local, kind: kinds[i] })
}

fn declares(declared: &Vec<RFieldId>, f: RFieldId) -> (r: bool)
    ensures
        r == declared@.contains(f),
{
    let mut i: usize = 0;
    while i < declared.len()
        invariant
            i <= declared@.len(),
            forall|j: int| 0 <= j < i ==> declared@[j] != f,
        decreases declared@.len() - i,
    {
        if declared[i] == f {
            return true;
        }
        i = i + 1;
    }
    false
}

/// The folded writes hold the last value of every declared field, once each.
pub open spec fn folded_of(
    declared: Seq<RFieldId>,
    writes: Seq<(RFieldId, Value)>,
    folded: Seq<(RFieldId, Value)>,
) -> bool {
    &&& forall|i: int, j: int|
        0 <= i < j < folded.len() ==> (#[trigger] folded[i]).0 != (#[trigger] folded[j]).0
    &&& forall|i: int|
        0 <= i < folded.len() ==> declared.contains((#[trigger] folded[i]).0) && last_write(
            writes,
            folded[i].0,
        ) == Some(folded[i].1@)
    &&& forall|f: RFieldId|
        declared.contains(f) && #[trigger] last_write(writes, f) is Some ==> exists|i: int|
            0 <= i < folded.len() && (#[trigger] folded[i]).0 == f
}

/// Folds the writes of a run: the last value of each declared field. What is not declared is
/// dropped and noted, and so is a second value that differs.
pub fn fold_writes(
    declared: &Vec<RFieldId>,
    writes: Vec<(RFieldId, Value)>,
) -> (r: (Vec<(RFieldId, Value)>, Vec<RenderNoteKind>))
    ensures
        folded_of(declared@, writes@, r.0@),
        r.1@ == write_notes(declared@, writes@),
{
    let mut folded: Vec<(RFieldId, Value)> = Vec::new();
    let mut notes: Vec<RenderNoteKind> = Vec::new();
    let mut k: usize = 0;
    proof {
        assert(writes@.take(0) =~= Seq::empty());
    }
    while k < writes.len()
        invariant
            k <= writes@.len(),
            folded_of(declared@, writes@.take(k as int), folded@),
            notes@ == write_notes(declared@, writes@.take(k as int)),
        decreases writes@.len() - k,
    {
        let f = writes[k].0;
        let v = &writes[k].1;
        let ghost done = writes@.take(k as int);
        let ghost next = writes@.take(k + 1);
        let ghost before = folded@;
        proof {
            assert(next.drop_last() =~= done);
            assert(next.last() == writes@[k as int]);
            assert forall|g: RFieldId| #[trigger] last_write(next, g) == (if g == f {
                Some(v@)
            } else {
                last_write(done, g)
            }) by {}
        }
        if !declares(declared, f) {
            notes.push(RenderNoteKind::UndeclaredWrite(f));
            proof {
                assert forall|g: RFieldId|
                    declared@.contains(g) && #[trigger] last_write(next, g) is Some implies exists|
                    i: int,
                |
                    0 <= i < folded@.len() && (#[trigger] folded@[i]).0 == g by {
                    assert(last_write(done, g) is Some);
                }
            }
        } else {
            let mut i: usize = 0;
            while i < folded.len()
                invariant
                    i <= folded@.len(),
                    folded@ == before,
                    forall|j: int| 0 <= j < i ==> (#[trigger] folded@[j]).0 != f,
                ensures
                    i <= folded@.len(),
                    folded@ == before,
                    forall|j: int| 0 <= j < i ==> (#[trigger] folded@[j]).0 != f,
                    i < folded@.len() ==> folded@[i as int].0 == f,
                decreases folded@.len() - i,
            {
                if folded[i].0 == f {
                    break;
                }
                i = i + 1;
            }
            if i < folded.len() {
                if folded[i].1 != *v {
                    notes.push(RenderNoteKind::Conflict(f));
                }
                folded.set(i, (f, v.clone()));
            } else {
                proof {
                    if last_write(done, f) is Some {
                        let j = choose|j: int| 0 <= j < before.len() && (#[trigger] before[j]).0 == f;
                        assert(folded@[j].0 == f);
                    }
                }
                folded.push((f, v.clone()));
            }
            proof {
                assert forall|g: RFieldId|
                    declared@.contains(g) && #[trigger] last_write(next, g) is Some implies exists|
                    j: int,
                |
                    0 <= j < folded@.len() && (#[trigger] folded@[j]).0 == g by {
                    if g == f {
                        assert(folded@[i as int].0 == f);
                    } else {
                        assert(last_write(done, g) is Some);
                        let j = choose|j: int| 0 <= j < before.len() && (#[trigger] before[j]).0 == g;
                        assert(folded@[j].0 == g);
                    }
                }
                assert forall|a: int, b: int| 0 <= a < b < folded@.len() implies (
                #[trigger] folded@[a]).0 != (#[trigger] folded@[b]).0 by {
                    if b < before.len() {
                        assert(before[a].0 != before[b].0);
                    }
                }
                assert forall|a: int| 0 <= a < folded@.len() implies declared@.contains(
                    (#[trigger] folded@[a]).0,
                ) && last_write(next, folded@[a].0) == Some(folded@[a].1@) by {
                    if a != i {
                        assert(before[a] == folded@[a]);
                        assert(before[a].0 != f);
                    }
                }
            }
        }
        k = k + 1;
    }
    proof {
        assert(writes@.take(writes@.len() as int) =~= writes@);
    }
    (folded, notes)
}

/// The value of a cell after the writes of a run of `inst`.
pub open spec fn written(
    store: RenderStore,
    inst: InstanceId,
    declared: Seq<RFieldId>,
    writes: Seq<(RFieldId, Value)>,
    i: InstanceId,
    f: RFieldId,
) -> Val {
    match last_write(writes, f) {
        Some(v) if i == inst && declared.contains(f) && store.present(inst) && store.field_known(
            inst.ty,
            f,
        ) => v,
        _ => store.value(i, f),
    }
}

/// Nothing but render fields differs.
pub open spec fn only_values(after: RenderStore, before: RenderStore) -> bool {
    &&& after.same_schema(before)
    &&& forall|i: InstanceId| #[trigger] after.present(i) <==> before.present(i)
    &&& forall|i: InstanceId, t: int|
        after.present(i) && after.slot_known(i.ty, t) ==> #[trigger] after.pair(i, t)
            == before.pair(i, t)
}

/// Commits the writes of a run.
pub fn commit_writes(
    store: &mut RenderStore,
    inst: InstanceId,
    declared: &Vec<RFieldId>,
    writes: Vec<(RFieldId, Value)>,
    notes: &mut Vec<RenderNote>,
)
    requires
        old(store).wf(),
    ensures
        final(store).wf(),
        only_values(*final(store), *old(store)),
        forall|ty: crate::entity::EntityTypeId|
            old(store).known(ty) ==> (#[trigger] final(store).at(ty)).slots == old(store).at(
                ty,
            ).slots,
        forall|i: InstanceId, f: RFieldId| #[trigger]
            final(store).value(i, f) == written(*old(store), inst, declared@, writes@, i, f),
        final(notes)@ == old(notes)@ + notes_of(
            Some(inst),
            None,
            write_notes(declared@, writes@),
        ),
{
    let ghost before = *store;
    let ghost all = writes@;
    let ghost notes0 = notes@;
    let (folded, kinds) = fold_writes(declared, writes);
    let mut n: usize = 0;
    while n < kinds.len()
        invariant
            n <= kinds@.len(),
            notes@ =~= notes0 + notes_of(Some(inst), None, kinds@).take(n as int),
        decreases kinds@.len() - n,
    {
        notes.push(RenderNote { inst: Some(inst), local: None, kind: kinds[n] });
        n = n + 1;
    }
    assert(notes@ =~= notes0 + notes_of(Some(inst), None, kinds@));
    let mut k: usize = 0;
    while k < folded.len()
        invariant
            k <= folded@.len(),
            folded_of(declared@, all, folded@),
            before.wf(),
            store.wf(),
            only_values(*store, before),
            forall|ty: crate::entity::EntityTypeId|
                before.known(ty) ==> (#[trigger] store.at(ty)).slots == before.at(ty).slots,
            forall|i: InstanceId, f: RFieldId| #[trigger]
                store.value(i, f) == written(
                    before,
                    inst,
                    folded_fields(folded@.take(k as int)),
                    all,
                    i,
                    f,
                ),
        decreases folded@.len() - k,
    {
        let ghost s0 = *store;
        let f = folded[k].0;
        let v = folded[k].1.clone();
        store.write_render(inst, f, v);
        proof {
            let done = folded_fields(folded@.take(k as int));
            let next = folded_fields(folded@.take(k + 1));
            assert(next =~= done.push(f));
            assert(last_write(all, f) == Some(v@));
            assert forall|g: RFieldId| #[trigger] next.contains(g) <==> (done.contains(g) || g == f) by {
                if done.contains(g) {
                    let j = choose|j: int| 0 <= j < done.len() && done[j] == g;
                    assert(next[j] == g);
                }
                if g == f {
                    assert(next[k as int] == f);
                }
            }
            assert forall|i: InstanceId, g: RFieldId| #[trigger] store.value(i, g) == written(
                before,
                inst,
                next,
                all,
                i,
                g,
            ) by {
                assert(s0.value(i, g) == written(before, inst, done, all, i, g));
                assert(s0.present(inst) <==> before.present(inst));
                if before.known(inst.ty) {
                    assert(s0.types@[inst.ty.0 as int].same_schema(
                        before.types@[inst.ty.0 as int],
                    ));
                }
            }
            assert(only_values(*store, before)) by {
                assert forall|t: int| 0 <= t < store.types@.len() implies (
                #[trigger] store.types@[t]).same_schema(before.types@[t]) by {
                    assert(s0.types@[t].same_schema(before.types@[t]));
                }
                assert forall|i: InstanceId, t: int|
                    store.present(i) && store.slot_known(i.ty, t) implies #[trigger] store.pair(i, t)
                    == before.pair(i, t) by {
                    assert(s0.present(i));
                    assert(store.types@[i.ty.0 as int].same_schema(s0.types@[i.ty.0 as int]));
                    assert(s0.slot_known(i.ty, t));
                    assert(store.pair(i, t) == s0.pair(i, t));
                    assert(s0.pair(i, t) == before.pair(i, t));
                }
            }
        }
        k = k + 1;
    }
    proof {
        assert(folded@.take(folded@.len() as int) =~= folded@);
        let fs = folded_fields(folded@);
        assert forall|i: InstanceId, f: RFieldId| #[trigger] store.value(i, f) == written(
            before,
            inst,
            declared@,
            all,
            i,
            f,
        ) by {
            if last_write(all, f) is Some {
                if declared@.contains(f) {
                    let j = choose|j: int| 0 <= j < folded@.len() && (#[trigger] folded@[j]).0 == f;
                    assert(fs[j] == f);
                } else if fs.contains(f) {
                    let j = choose|j: int| 0 <= j < fs.len() && fs[j] == f;
                    assert(declared@.contains(folded@[j].0));
                }
            }
        }
    }
}

/// The fields of folded writes.
pub open spec fn folded_fields(folded: Seq<(RFieldId, Value)>) -> Seq<RFieldId> {
    Seq::new(folded.len(), |i: int| folded[i].0)
}

/// A field that a calculation does not declare keeps its value, whatever the calculation
/// writes; so does every field of another instance.
pub proof fn law_writes_stay_within_declarations(
    store: RenderStore,
    inst: InstanceId,
    declared: Seq<RFieldId>,
    writes: Seq<(RFieldId, Value)>,
    i: InstanceId,
    f: RFieldId,
)
    requires
        i != inst || !declared.contains(f),
    ensures
        written(store, inst, declared, writes, i, f) == store.value(i, f),
{
}

}
