//! What writes, births and deaths leave, and what is noted or refused.
use crate::float64::F64;
use crate::runtime::fold_laws::law_the_dead_do_not_contribute;
use crate::runtime::fold::fold_without;
use crate::runtime::fold::without;
use crate::runtime::fold::Member;
use crate::runtime::fold::FoldModel;
use crate::runtime::route::FoldEntryModel;
use crate::runtime::engine::losing;
use crate::runtime::frame::write_count;
use crate::calculation::CalcId;
use crate::entity::EntityTypeId;
use crate::entity::FieldId;
use crate::entity::InstanceId;
use crate::entity::FIELD_ALIVE;
use crate::runtime::commit::deaths_in;
use crate::runtime::commit::written;
use crate::runtime::engine::external_error;
use crate::runtime::engine::init_error;
use crate::runtime::engine::spawn_error;
use crate::runtime::engine::WriteError;
use crate::runtime::lifecycle::birth_log;
use crate::runtime::lifecycle::init_value;
use crate::runtime::lifecycle::WriteModel;
use crate::runtime::merge::cell_at;
use crate::runtime::merge::lemma_cell_found;
use crate::runtime::merge::merge_run;
use crate::runtime::merge::merge_write;
use crate::runtime::merge::Merged;
use crate::runtime::merge::Note;
use crate::runtime::merge::NoteKind;
use crate::runtime::store::Store;
use crate::runtime::store::TypeStore;
use crate::value::Val;
use crate::value::Value;
use vstd::prelude::*;

verus! {

/// A field of a newborn holds the last of its initial values, or its default without one.
pub proof fn law_newborns_hold_their_initial_values(
    init: Seq<(FieldId, Value)>,
    f: FieldId,
    default: Val,
    k: int,
)
    ensures
        0 <= k < init.len() && init[k].0 == f && (forall|j: int|
            k < j < init.len() ==> (#[trigger] init[j]).0 != f) ==> init_value(
            init,
            init.len() as int,
            f,
            default,
        ) == init[k].1@,
        (forall|j: int| 0 <= j < init.len() ==> (#[trigger] init[j]).0 != f) ==> init_value(
            init,
            init.len() as int,
            f,
            default,
        ) == default,
{
    lemma_initial(init, init.len() as int, f, default, k);
}

proof fn lemma_initial(init: Seq<(FieldId, Value)>, n: int, f: FieldId, default: Val, k: int)
    requires
        0 <= n <= init.len(),
    ensures
        0 <= k < n && init[k].0 == f && (forall|j: int| k < j < n ==> (#[trigger] init[j]).0 != f)
            ==> init_value(init, n, f, default) == init[k].1@,
        (forall|j: int| 0 <= j < n ==> (#[trigger] init[j]).0 != f) ==> init_value(
            init,
            n,
            f,
            default,
        ) == default,
    decreases n,
{
    if n > 0 {
        lemma_initial(init, n - 1, f, default, k);
        assert(init[n - 1].0 == init[n - 1].0);
    }
}

/// A birth is told as writes: first that the instance is alive and was not, then its initial
/// values in order, the first to a field from the default and the others from the one before.
pub proof fn law_births_are_told(
    inst: InstanceId,
    t: TypeStore,
    init: Seq<(FieldId, Value)>,
    k: int,
    j: int,
)
    requires
        0 <= k < init.len(),
    ensures
        birth_log(inst, t, init).len() == init.len() + 1,
        birth_log(inst, t, init)[0].inst == inst,
        birth_log(inst, t, init)[0].field.0 == FIELD_ALIVE,
        birth_log(inst, t, init)[0].old == Val::Bool(false),
        birth_log(inst, t, init)[0].new == Val::Bool(true),
        birth_log(inst, t, init)[k + 1].inst == inst,
        birth_log(inst, t, init)[k + 1].field == init[k].0,
        birth_log(inst, t, init)[k + 1].new == init[k].1@,
        (forall|i: int| 0 <= i < k ==> (#[trigger] init[i]).0 != init[k].0) ==> birth_log(
            inst,
            t,
            init,
        )[k + 1].old == t.default_of(init[k].0.0 as int),
        0 <= j < k && init[j].0 == init[k].0 && (forall|i: int|
            j < i < k ==> (#[trigger] init[i]).0 != init[k].0) ==> birth_log(inst, t, init)[k
            + 1].old == init[j].1@,
{
    lemma_initial(init, k, init[k].0, t.default_of(init[k].0.0 as int), j);
}

/// A cell holds what the last write to it brought, or what it held before without one.
pub proof fn law_cells_hold_the_last_write(
    log: Seq<WriteModel>,
    n: int,
    i: InstanceId,
    f: FieldId,
    before: Val,
    k: int,
)
    requires
        0 <= n <= log.len(),
    ensures
        0 <= k < n && log[k].inst == i && log[k].field == f && (forall|j: int|
            k < j < n ==> !((#[trigger] log[j]).inst == i && log[j].field == f)) ==> written(
            log,
            n,
            i,
            f,
            before,
        ) == log[k].new,
        (forall|j: int| 0 <= j < n ==> !((#[trigger] log[j]).inst == i && log[j].field == f))
            ==> written(log, n, i, f, before) == before,
    decreases n,
{
    if n > 0 {
        law_cells_hold_the_last_write(log, n - 1, i, f, before, k);
        assert(log[n - 1].inst == log[n - 1].inst);
    }
}

/// Those end whose life was written, and no others.
pub proof fn law_who_ends(log: Seq<WriteModel>, n: int, i: InstanceId)
    requires
        0 <= n <= log.len(),
    ensures
        deaths_in(log, n).contains(i) <==> exists|k: int|
            0 <= k < n && (#[trigger] log[k]).inst == i && log[k].field.0 == FIELD_ALIVE,
    decreases n,
{
    if n > 0 {
        law_who_ends(log, n - 1, i);
        let a = deaths_in(log, n - 1);
        let b = deaths_in(log, n);
        let w = log[n - 1];
        if b.contains(i) {
            let x = choose|x: int| 0 <= x < b.len() && b[x] == i;
            if x < a.len() {
                assert(a[x] == i);
                assert(a.contains(i));
            } else {
                assert(w.inst == i && w.field.0 == FIELD_ALIVE);
            }
        }
        if a.contains(i) {
            let x = choose|x: int| 0 <= x < a.len() && a[x] == i;
            assert(b[x] == i);
        }
        if w.inst == i && w.field.0 == FIELD_ALIVE {
            assert(b[a.len() as int] == i);
        }
    }
}

/// A request for an instance is met where its type is there and has room, and every initial
/// value is for a field of the type that is not its life. The first that is not is told of.
pub proof fn law_which_requests_are_met(store: Store, ty: EntityTypeId, init: Seq<(FieldId, Value)>)
    ensures
        spawn_error(store, ty, init) is None <==> {
            &&& store.known(ty)
            &&& store.at(ty).room()
            &&& forall|k: int|
                0 <= k < init.len() ==> store.field_known(ty, (#[trigger] init[k]).0)
                    && init[k].0.0 != FIELD_ALIVE
        },
        match spawn_error(store, ty, init) {
            Some(WriteError::NoSuchType(t)) => t == ty && !store.known(ty),
            Some(WriteError::NoSuchField(t, f)) => t == ty && store.known(ty)
                && !store.field_known(ty, f) && exists|k: int|
                0 <= k < init.len() && (#[trigger] init[k]).0 == f,
            Some(WriteError::Alive) => store.known(ty) && exists|k: int|
                0 <= k < init.len() && (#[trigger] init[k]).0.0 == FIELD_ALIVE,
            Some(WriteError::NoRoom) => store.known(ty) && !store.at(ty).room(),
            Some(_) => false,
            None => true,
        },
{
    lemma_init_error(store, ty, init, init.len() as int);
}

proof fn lemma_init_error(store: Store, ty: EntityTypeId, init: Seq<(FieldId, Value)>, n: int)
    requires
        0 <= n <= init.len(),
    ensures
        init_error(store, ty, init, n) is None <==> forall|k: int|
            0 <= k < n ==> store.field_known(ty, (#[trigger] init[k]).0) && init[k].0.0
                != FIELD_ALIVE,
        match init_error(store, ty, init, n) {
            Some(WriteError::NoSuchField(t, f)) => t == ty && !store.field_known(ty, f) && exists|
                k: int,
            |
                0 <= k < n && (#[trigger] init[k]).0 == f,
            Some(WriteError::Alive) => exists|k: int|
                0 <= k < n && (#[trigger] init[k]).0.0 == FIELD_ALIVE,
            Some(_) => false,
            None => true,
        },
    decreases n,
{
    if n > 0 {
        lemma_init_error(store, ty, init, n - 1);
        assert(init[n - 1].0 == init[n - 1].0);
    }
}

/// A write from outside is let in where it is to a field that is there, is not the clock's,
/// and is not a life.
pub proof fn law_which_writes_are_let_in(
    store: Store,
    clock_ty: EntityTypeId,
    ty: EntityTypeId,
    field: FieldId,
)
    ensures
        external_error(store, clock_ty, ty, field) is None <==> store.known(ty)
            && store.field_known(ty, field) && ty != clock_ty && field.0 != FIELD_ALIVE,
        external_error(store, clock_ty, ty, field) == Some(WriteError::NoSuchType(ty))
            <==> !store.known(ty),
        external_error(store, clock_ty, ty, field) == Some(WriteError::NoSuchField(ty, field))
            <==> store.known(ty) && !store.field_known(ty, field),
        external_error(store, clock_ty, ty, field) == Some(WriteError::ClockCells)
            <==> store.known(ty) && store.field_known(ty, field) && ty == clock_ty,
        external_error(store, clock_ty, ty, field) == Some(WriteError::Alive) <==> store.known(ty)
            && store.field_known(ty, field) && ty != clock_ty && field.0 == FIELD_ALIVE,
{
}

/// A write that a calculation may not make is dropped and noted. One that it may make is the
/// value of its cell from then on; it starts from what is committed if it is the cell's first,
/// and is noted as a conflict if the cell already had another value. Other cells stay.
pub proof fn law_one_write_is_merged(
    store: Store,
    calc: CalcId,
    declared: Seq<FieldId>,
    inst: InstanceId,
    m: Merged,
    field: FieldId,
    v: Val,
)
    ensures
        ({
            let r = merge_write(store, calc, declared, inst, m, field, v);
            let may = if field.0 == FIELD_ALIVE {
                v == Val::Bool(false)
            } else {
                declared.contains(field)
            };
            let at = cell_at(m.log, inst, field);
            let open = exists|k: int|
                0 <= k < m.log.len() && (#[trigger] m.log[k]).inst == inst && m.log[k].field
                    == field;
            &&& !may ==> r.log == m.log && r.notes == m.notes.push(
                Note { calc, inst, kind: NoteKind::UndeclaredWrite(field) },
            )
            &&& may && !open ==> r.notes == m.notes && r.log.len() == m.log.len() + 1
                && r.log.drop_last() == m.log && r.log.last() == (WriteModel {
                inst,
                field,
                old: store.value(inst, field),
                new: v,
            })
            &&& may && open ==> {
                &&& 0 <= at < m.log.len()
                &&& m.log[at].inst == inst && m.log[at].field == field
                &&& r.log.len() == m.log.len()
                &&& r.log[at].new == v && r.log[at].old == m.log[at].old
                &&& r.log[at].inst == inst && r.log[at].field == field
                &&& forall|k: int| 0 <= k < m.log.len() && k != at ==> r.log[k] == m.log[k]
                &&& m.log[at].new.same(v) ==> r.notes == m.notes
                &&& !m.log[at].new.same(v) ==> r.notes == m.notes.push(
                    Note { calc, inst, kind: NoteKind::Conflict(field) },
                )
            }
        }),
{
    lemma_cell_found(m.log, inst, field);
    let r = merge_write(store, calc, declared, inst, m, field, v);
    if r.log.len() == m.log.len() + 1 {
        assert(r.log.drop_last() =~= m.log);
    }
}

/// The writes of a run are merged one after the other.
pub proof fn law_runs_are_merged_in_order(
    store: Store,
    calc: CalcId,
    declared: Seq<FieldId>,
    inst: InstanceId,
    m: Merged,
    writes: Seq<(FieldId, Value)>,
    n: int,
)
    requires
        0 <= n < writes.len(),
    ensures
        merge_run(store, calc, declared, inst, m, writes, 0) == m,
        merge_run(store, calc, declared, inst, m, writes, n + 1) == merge_write(
            store,
            calc,
            declared,
            inst,
            merge_run(store, calc, declared, inst, m, writes, n),
            writes[n].0,
            writes[n].1@,
        ),
{
}

/// The writes to a field are counted: each adds one, up to the greatest count.
pub proof fn law_writes_are_counted(
    log: Seq<WriteModel>,
    n: int,
    ty: EntityTypeId,
    field: FieldId,
    start: u64,
)
    requires
        0 <= n <= log.len(),
    ensures
        ({
            let hits = log.take(n).filter(
                |w: WriteModel| w.inst.ty == ty && w.field == field,
            ).len();
            write_count(log, n, ty, field, start) == if start + hits < u64::MAX {
                start + hits
            } else {
                u64::MAX as int
            }
        }),
    decreases n,
{
    reveal(Seq::filter);
    let p = |w: WriteModel| w.inst.ty == ty && w.field == field;
    if n > 0 {
        law_writes_are_counted(log, n - 1, ty, field, start);
        assert(log.take(n).drop_last() =~= log.take(n - 1));
        assert(log.take(n).last() == log[n - 1]);
    }
}

/// A minimum or a maximum loses by a death where the dead contributed to it, and is told so;
/// sums and counts lose nothing.
pub proof fn law_who_loses_by_a_death(
    fs: Seq<FoldEntryModel>,
    dead: InstanceId,
    n: int,
    c: CalcId,
    sub: InstanceId,
)
    requires
        0 <= n <= fs.len(),
    ensures
        losing(fs, dead, n).contains((c, sub)) <==> exists|k: int|
            0 <= k < n && (#[trigger] fs[k]).calc == c && fs[k].sub == sub && contributes(
                fs[k].acc,
                dead,
            ),
    decreases n,
{
    if n > 0 {
        law_who_loses_by_a_death(fs, dead, n - 1, c, sub);
        let a = losing(fs, dead, n - 1);
        let b = losing(fs, dead, n);
        let e = fs[n - 1];
        lemma_loses(e.acc, dead);
        if b.contains((c, sub)) {
            let x = choose|x: int| 0 <= x < b.len() && b[x] == (c, sub);
            if x < a.len() {
                assert(a[x] == (c, sub));
                assert(a.contains((c, sub)));
            } else {
                assert(e.calc == c && e.sub == sub && contributes(e.acc, dead));
            }
        }
        if a.contains((c, sub)) {
            let x = choose|x: int| 0 <= x < a.len() && a[x] == (c, sub);
            assert(b[x] == (c, sub));
        }
        if e.calc == c && e.sub == sub && contributes(e.acc, dead) {
            assert(b[a.len() as int] == (c, sub));
        }
    }
}

/// A cell of the instance contributes to the aggregate.
pub open spec fn contributes(acc: FoldModel, inst: InstanceId) -> bool {
    acc is Members && exists|k: int|
        0 <= k < acc->Members_0.len() && (#[trigger] acc->Members_0[k]).cell.inst == inst
}

proof fn lemma_loses(acc: FoldModel, dead: InstanceId)
    ensures
        fold_without(acc, dead) != acc <==> contributes(acc, dead),
{
    if acc is Members {
        let ms = acc->Members_0;
        let r = fold_without(acc, dead)->Members_0;
        if contributes(acc, dead) {
            let k = choose|k: int| 0 <= k < ms.len() && (#[trigger] ms[k]).cell.inst == dead;
            law_the_dead_do_not_contribute(ms, F64 { bits: 0 }, dead, ms[k]);
            assert(!r.contains(ms[k]));
            assert(ms.contains(ms[k]));
        } else {
            lemma_all_stay(ms, dead);
        }
    }
}

proof fn lemma_all_stay(ms: Seq<Member>, dead: InstanceId)
    requires
        forall|k: int| 0 <= k < ms.len() ==> (#[trigger] ms[k]).cell.inst != dead,
    ensures
        without(ms, dead) == ms,
    decreases ms.len(),
{
    if ms.len() > 0 {
        let t = ms.drop_last();
        assert forall|k: int| 0 <= k < t.len() implies (#[trigger] t[k]).cell.inst != dead by {
            assert(ms[k].cell.inst != dead);
        }
        lemma_all_stay(t, dead);
        assert(ms[ms.len() - 1].cell.inst != dead);
    }
    assert(without(ms, dead) =~= ms);
}

}
