//! The end of a frame: writes, births and deaths become the data of the next one.
use crate::calculation::CalcId;
use crate::calculation::SpawnReq;
use crate::entity::EntityTypeId;
use crate::entity::FieldId;
use crate::entity::InstanceId;
use crate::entity::FIELD_ALIVE;
use crate::runtime::engine::folds_without;
use crate::runtime::engine::init_error;
use crate::runtime::engine::losing;
use crate::runtime::engine::revoke_from_folds;
use crate::runtime::engine::spawn_error;
use crate::runtime::engine::validate_spawn;
use crate::runtime::lifecycle::birth_log;
use crate::runtime::lifecycle::init_value;
use crate::runtime::lifecycle::lemma_schema_refs;
use crate::runtime::lifecycle::log_of;
use crate::runtime::lifecycle::null_log;
use crate::runtime::lifecycle::refers;
use crate::runtime::lifecycle::refs_ok;
use crate::runtime::lifecycle::settle_death;
use crate::runtime::lifecycle::spawn_now;
use crate::runtime::lifecycle::write_cell;
use crate::runtime::lifecycle::WriteModel;
use crate::runtime::lifecycle::WriteRec;
use crate::runtime::refs::RefTable;
use crate::runtime::route::folds_of;
use crate::runtime::route::folds_ok;
use crate::runtime::route::FoldTable;
use crate::runtime::route::FoldEntryModel;
use crate::runtime::routing::dirty_ok;
use crate::runtime::store::Layout;
use crate::runtime::store::Store;
use crate::runtime::CalcInfo;
use crate::value::Val;
use crate::value::Value;
use vstd::prelude::*;

verus! {

/// A vector back to front.
pub fn reversed<T>(v: Vec<T>) -> (r: Vec<T>)
    ensures
        r@ == v@.reverse(),
{
    let mut rest = v;
    let mut out: Vec<T> = Vec::new();
    while rest.len() > 0
        invariant
            rest@.len() <= v@.len(),
            rest@ == v@.take(rest@.len() as int),
            out@.len() + rest@.len() == v@.len(),
            forall|i: int| 0 <= i < out@.len() ==> #[trigger] out@[i] == v@[v@.len() - 1 - i],
        decreases rest@.len(),
    {
        let ghost n = rest@.len();
        let x = rest.pop().unwrap();
        assert(x == v@[n - 1]);
        out.push(x);
        assert(rest@ =~= v@.take(n - 1));
    }
    assert(out@ =~= v@.reverse());
    out
}

/// The writes of a log can be committed: each cell once, from its committed value, within
/// existing instances; `_alive` only ends.
pub open spec fn log_ok(store: Store, log: Seq<WriteModel>) -> bool {
    &&& forall|i: int, j: int|
        0 <= i < j < log.len() ==> !((#[trigger] log[i]).inst == (#[trigger] log[j]).inst
            && log[i].field == log[j].field)
    &&& forall|i: int|
        0 <= i < log.len() ==> {
            &&& (#[trigger] log[i]).old == store.value(log[i].inst, log[i].field)
            &&& store.is_alive(log[i].inst)
            &&& store.field_known(log[i].inst.ty, log[i].field)
            &&& log[i].field.0 == FIELD_ALIVE ==> log[i].new == Val::Bool(false)
        }
}

/// The value of a cell after the first `n` writes.
pub open spec fn written(log: Seq<WriteModel>, n: int, i: InstanceId, f: FieldId, before: Val) -> Val
    decreases n,
{
    if n <= 0 {
        before
    } else if log[n - 1].inst == i && log[n - 1].field == f {
        log[n - 1].new
    } else {
        written(log, n - 1, i, f, before)
    }
}

/// The instances that the first `n` writes end, in order.
pub open spec fn deaths_in(log: Seq<WriteModel>, n: int) -> Seq<InstanceId>
    decreases n,
{
    if n <= 0 {
        Seq::empty()
    } else if log[n - 1].field.0 == FIELD_ALIVE {
        deaths_in(log, n - 1).push(log[n - 1].inst)
    } else {
        deaths_in(log, n - 1)
    }
}

/// The data after a log: every written cell has its new value, everything else its old one.
pub open spec fn log_applied(after: Store, before: Store, log: Seq<WriteModel>) -> bool {
    &&& after.wf()
    &&& after.same_schema(before)
    &&& after.gone_kept(before)
    &&& after.same_layouts(before)
    &&& forall|i: InstanceId| #[trigger] after.has(i) <==> before.has(i)
    &&& forall|i: InstanceId, f: FieldId| #[trigger]
        after.value(i, f) == written(log, log.len() as int, i, f, before.value(i, f))
}

/// A cell that none of the first `n` writes touches keeps its value.
proof fn lemma_unwritten(log: Seq<WriteModel>, n: int, i: InstanceId, f: FieldId, before: Val)
    requires
        0 <= n <= log.len(),
        forall|k: int| 0 <= k < n ==> !((#[trigger] log[k]).inst == i && log[k].field == f),
    ensures
        written(log, n, i, f, before) == before,
    decreases n,
{
    if n > 0 {
        lemma_unwritten(log, n - 1, i, f, before);
    }
}

/// Commits a log of writes, and lists the instances that end.
fn apply_log(store: &mut Store, refs: &mut RefTable, log: &Vec<WriteRec>) -> (r: Vec<InstanceId>)
    requires
        old(store).wf(),
        refs_ok(*old(store), *old(refs)),
        log_ok(*old(store), log_of(log@)),
    ensures
        log_applied(*final(store), *old(store), log_of(log@)),
        refs_ok(*final(store), *final(refs)),
        r@ == deaths_in(log_of(log@), log@.len() as int),
{
    let ghost s0 = *store;
    let ghost m = log_of(log@);
    let mut deaths: Vec<InstanceId> = Vec::new();
    let mut k: usize = 0;
    while k < log.len()
        invariant
            m == log_of(log@),
            k <= log@.len(),
            log_ok(s0, m),
            store.wf(),
            store.same_schema(s0),
            store.gone_kept(s0),
            store.same_layouts(s0),
            refs_ok(*store, *refs),
            forall|i: InstanceId| #[trigger] store.has(i) <==> s0.has(i),
            forall|i: InstanceId, f: FieldId| #[trigger]
                store.value(i, f) == written(m, k as int, i, f, s0.value(i, f)),
            deaths@ == deaths_in(m, k as int),
        decreases log@.len() - k,
    {
        let rec = &log[k];
        let ghost sk = *store;
        proof {
            assert(m[k as int] == rec@);
            lemma_schema_refs(sk, s0);
            assert(s0.field_known(rec.inst.ty, rec.field));
            assert(sk.field_known(rec.inst.ty, rec.field));
            lemma_unwritten(m, k as int, rec.inst, rec.field, s0.value(rec.inst, rec.field));
            assert(sk.value(rec.inst, rec.field) == rec.old@);
            assert(s0.is_alive(rec.inst));
            assert(s0.has(rec.inst));
        }
        write_cell(store, refs, rec.inst, rec.field, &rec.old, &rec.new);
        if rec.field.0 == FIELD_ALIVE {
            deaths.push(rec.inst);
        }
        proof {
            assert forall|i: InstanceId, f: FieldId| #[trigger] store.value(i, f) == written(
                m,
                k + 1,
                i,
                f,
                s0.value(i, f),
            ) by {
                assert(sk.value(i, f) == written(m, k as int, i, f, s0.value(i, f)));
            }
            assert(store.same_schema(s0)) by {
                assert forall|x: int| 0 <= x < store.types@.len() implies (
                #[trigger] store.types@[x]).same_schema(s0.types@[x]) by {
                    assert(sk.types@[x].same_schema(s0.types@[x]));
                }
            }
            assert forall|i: InstanceId| s0.gone(i) implies #[trigger] store.gone(i) by {
                assert(sk.gone(i));
            }
            lemma_same_layouts(*store, sk, s0);
        }
        k = k + 1;
    }
    deaths
}

/// Rows that stayed twice stayed.
pub proof fn lemma_same_layouts(c: Store, b: Store, a: Store)
    requires
        c.same_layouts(b),
        b.same_layouts(a),
    ensures
        c.same_layouts(a),
{
    assert forall|t: EntityTypeId| a.known(t) implies (#[trigger] c.at(t)).layout() == a.at(
        t,
    ).layout() by {
        assert(b.known(t));
        assert(b.at(t).layout() == a.at(t).layout());
    }
}

/// The rows of a type after the first `n` requests: one instance more for each that was met.
pub open spec fn births_layout(
    before: Store,
    ty: EntityTypeId,
    born: Seq<Option<InstanceId>>,
    n: int,
) -> Layout
    decreases n,
{
    if n <= 0 {
        before.at(ty).layout()
    } else if born[n - 1] is Some && born[n - 1]->0.ty == ty {
        births_layout(before, ty, born, n - 1).with_new(before.at(ty).policy)
    } else {
        births_layout(before, ty, born, n - 1)
    }
}

/// The requests were met in order: each valid one while its type had room.
pub open spec fn births(
    after: Store,
    before: Store,
    reqs: Seq<SpawnReq>,
    born: Seq<Option<InstanceId>>,
) -> bool {
    &&& after.wf()
    &&& after.same_schema(before)
    &&& after.gone_kept(before)
    &&& born.len() <= reqs.len()
    &&& forall|k: int|
        #![trigger born[k]]
        0 <= k < born.len() ==> {
            let ty = reqs[k].ty;
            let init = reqs[k].init@;
            let bad = !before.known(ty) || init_error(before, ty, init, init.len() as int) is Some;
            &&& bad ==> born[k] is None
            &&& born[k] is None ==> bad || !after.at(ty).room()
            &&& born[k] is Some ==> {
                let r = born[k]->0;
                &&& r.ty == ty
                &&& r.id == births_layout(before, ty, born, k).next_id()
                &&& r.generation == births_layout(before, ty, born, k).next_generation()
                &&& !before.has(r)
                &&& !before.gone(r)
                &&& after.is_alive(r)
                &&& forall|f: FieldId|
                    f.0 != FIELD_ALIVE && before.field_known(ty, f) ==> #[trigger] after.value(r, f)
                        == init_value(
                        init,
                        init.len() as int,
                        f,
                        before.at(ty).default_of(f.0 as int),
                    )
            }
        }
    &&& forall|j: int, k: int|
        #![trigger born[j], born[k]]
        0 <= j < k < born.len() && born[j] is Some && born[k] is Some ==> born[j]->0 != born[k]->0
    &&& forall|i: InstanceId|
        #![trigger after.has(i)]
        after.has(i) <==> before.has(i) || exists|k: int|
            0 <= k < born.len() && #[trigger] born[k] == Some(i)
    &&& forall|i: InstanceId, f: FieldId| before.has(i) ==> #[trigger] after.value(i, f)
        == before.value(i, f)
    &&& forall|t: EntityTypeId|
        before.known(t) ==> (#[trigger] after.at(t)).layout() == births_layout(
            before,
            t,
            born,
            born.len() as int,
        )
}

/// The log of the first `n` requests.
pub open spec fn births_log(
    before: Store,
    reqs: Seq<SpawnReq>,
    born: Seq<Option<InstanceId>>,
    n: int,
) -> Seq<WriteModel>
    decreases n,
{
    if n <= 0 {
        Seq::empty()
    } else {
        match born[n - 1] {
            Some(r) => births_log(before, reqs, born, n - 1) + birth_log(
                r,
                before.at(reqs[n - 1].ty),
                reqs[n - 1].init@,
            ),
            None => births_log(before, reqs, born, n - 1),
        }
    }
}

/// What fits a type depends on its schema only.
proof fn lemma_init_error_schema(
    a: Store,
    b: Store,
    ty: EntityTypeId,
    init: Seq<(FieldId, Value)>,
    n: int,
)
    requires
        a.same_schema(b),
    ensures
        init_error(a, ty, init, n) == init_error(b, ty, init, n),
    decreases n,
{
    if n > 0 {
        lemma_init_error_schema(a, b, ty, init, n - 1);
        lemma_schema_refs(a, b);
    }
}

/// Meets the requests of a frame.
fn spawn_all(
    store: &mut Store,
    refs: &mut RefTable,
    reqs: Vec<SpawnReq>,
    next: &mut Vec<WriteRec>,
) -> (r: Vec<Option<InstanceId>>)
    requires
        old(store).wf(),
        refs_ok(*old(store), *old(refs)),
    ensures
        births(*final(store), *old(store), reqs@, r@),
        r@.len() == reqs@.len(),
        refs_ok(*final(store), *final(refs)),
        log_of(final(next)@) == log_of(old(next)@) + births_log(
            *old(store),
            reqs@,
            r@,
            reqs@.len() as int,
        ),
{
    let ghost s0 = *store;
    let ghost l0 = log_of(next@);
    let ghost n = reqs@.len();
    let mut rest = reversed(reqs);
    let mut born: Vec<Option<InstanceId>> = Vec::new();
    assert(log_of(next@) =~= l0 + births_log(s0, reqs@, born@, 0));
    while rest.len() > 0
        invariant
            n == reqs@.len(),
            rest@.len() + born@.len() == n,
            rest@ == reqs@.reverse().take(rest@.len() as int),
            s0.wf(),
            births(*store, s0, reqs@, born@),
            refs_ok(*store, *refs),
            log_of(next@) == l0 + births_log(s0, reqs@, born@, born@.len() as int),
        decreases rest@.len(),
    {
        let ghost k = born@.len() as int;
        let ghost sk = *store;
        let ghost bk = born@;
        let ghost lk = log_of(next@);
        let req = rest.pop().unwrap();
        proof {
            assert(req == reqs@.reverse()[rest@.len() as int]);
            assert(req == reqs@[k]);
            assert(rest@ =~= reqs@.reverse().take(rest@.len() as int));
            lemma_init_error_schema(sk, s0, req.ty, req.init@, req.init@.len() as int);
        }
        let SpawnReq { ty, init } = req;
        match validate_spawn(store, ty, &init) {
            Some(_) => {
                born.push(None);
                proof {
                    lemma_births_none(sk, s0, reqs@, bk);
                    lemma_births_log(s0, reqs@, bk, born@, k);
                    assert(births_log(s0, reqs@, born@, k + 1) == births_log(s0, reqs@, bk, k));
                }
            },
            None => {
                let ghost init0 = init@;
                let r = spawn_now(store, refs, ty, init, next);
                born.push(Some(r));
                proof {
                    assert(sk.types@[ty.0 as int].same_schema(s0.types@[ty.0 as int]));
                    assert(birth_log(r, sk.at(ty), init0) =~= birth_log(r, s0.at(ty), init0));
                    lemma_births_some(*store, sk, s0, reqs@, bk, r);
                    lemma_births_log(s0, reqs@, bk, born@, k);
                    assert(log_of(next@) =~= l0 + births_log(s0, reqs@, born@, k + 1));
                }
            },
        }
    }
    born
}

/// A longer list of births gives rows alike at its beginning.
proof fn lemma_births_layout(
    before: Store,
    ty: EntityTypeId,
    a: Seq<Option<InstanceId>>,
    b: Seq<Option<InstanceId>>,
    n: int,
)
    requires
        0 <= n <= a.len() <= b.len(),
        forall|k: int| 0 <= k < n ==> #[trigger] a[k] == b[k],
    ensures
        births_layout(before, ty, a, n) == births_layout(before, ty, b, n),
    decreases n,
{
    if n > 0 {
        lemma_births_layout(before, ty, a, b, n - 1);
        assert(a[n - 1] == b[n - 1]);
    }
}

/// A longer list of births logs its beginning alike.
proof fn lemma_births_log(
    before: Store,
    reqs: Seq<SpawnReq>,
    a: Seq<Option<InstanceId>>,
    b: Seq<Option<InstanceId>>,
    n: int,
)
    requires
        0 <= n <= a.len() <= b.len(),
        forall|k: int| 0 <= k < n ==> #[trigger] a[k] == b[k],
    ensures
        births_log(before, reqs, a, n) == births_log(before, reqs, b, n),
    decreases n,
{
    if n > 0 {
        lemma_births_log(before, reqs, a, b, n - 1);
        assert(a[n - 1] == b[n - 1]);
    }
}

proof fn lemma_births_none(
    store: Store,
    s0: Store,
    reqs: Seq<SpawnReq>,
    born: Seq<Option<InstanceId>>,
)
    requires
        births(store, s0, reqs, born),
        born.len() < reqs.len(),
        ({
            let q = reqs[born.len() as int];
            let bad = !s0.known(q.ty) || init_error(s0, q.ty, q.init@, q.init@.len() as int) is Some;
            bad || !store.at(q.ty).room()
        }),
    ensures
        births(store, s0, reqs, born.push(None)),
{
    let b = born.push(None);
    assert forall|i: InstanceId|
        #![trigger store.has(i)]
        store.has(i) <==> s0.has(i) || exists|k: int| 0 <= k < b.len() && #[trigger] b[k] == Some(
            i,
        ) by {
        if exists|k: int| 0 <= k < born.len() && #[trigger] born[k] == Some(i) {
            let k = choose|k: int| 0 <= k < born.len() && #[trigger] born[k] == Some(i);
            assert(b[k] == Some(i));
        }
        if exists|k: int| 0 <= k < b.len() && #[trigger] b[k] == Some(i) {
            let k = choose|k: int| 0 <= k < b.len() && #[trigger] b[k] == Some(i);
            assert(born[k] == Some(i));
        }
    }
    assert forall|k: int|
        #![trigger b[k]]
        0 <= k < b.len() implies {
        let ty = reqs[k].ty;
        let init = reqs[k].init@;
        let bad = !s0.known(ty) || init_error(s0, ty, init, init.len() as int) is Some;
        &&& bad ==> b[k] is None
        &&& b[k] is None ==> bad || !store.at(ty).room()
        &&& b[k] is Some ==> {
            let r = b[k]->0;
            &&& r.ty == ty
            &&& r.id == births_layout(s0, ty, b, k).next_id()
            &&& r.generation == births_layout(s0, ty, b, k).next_generation()
            &&& !s0.has(r)
            &&& !s0.gone(r)
            &&& store.is_alive(r)
            &&& forall|f: FieldId|
                f.0 != FIELD_ALIVE && s0.field_known(ty, f) ==> #[trigger] store.value(r, f)
                    == init_value(init, init.len() as int, f, s0.at(ty).default_of(f.0 as int))
        }
    } by {
        if k < born.len() {
            assert(b[k] == born[k]);
            lemma_births_layout(s0, reqs[k].ty, born, b, k);
        }
    }
    assert forall|t: EntityTypeId| s0.known(t) implies (#[trigger] store.at(t)).layout()
        == births_layout(s0, t, b, b.len() as int) by {
        lemma_births_layout(s0, t, born, b, born.len() as int);
    }
    assert forall|j: int, k: int|
        #![trigger b[j], b[k]]
        0 <= j < k < b.len() && b[j] is Some && b[k] is Some implies b[j]->0 != b[k]->0 by {
        assert(b[j] == born[j] && b[k] == born[k]);
    }
}

proof fn lemma_births_some(
    after: Store,
    sk: Store,
    s0: Store,
    reqs: Seq<SpawnReq>,
    born: Seq<Option<InstanceId>>,
    r: InstanceId,
)
    requires
        births(sk, s0, reqs, born),
        born.len() < reqs.len(),
        spawn_error(sk, reqs[born.len() as int].ty, reqs[born.len() as int].init@) is None,
        crate::runtime::lifecycle::birth_keeps(after, sk, r),
        r.ty == reqs[born.len() as int].ty,
        r.id == sk.at(r.ty).next_id(),
        r.generation == sk.at(r.ty).next_generation(),
        forall|i: InstanceId| i.ty == r.ty && i.id == r.id ==> !#[trigger] sk.has(i),
        forall|i: InstanceId|
            i.ty == r.ty && i.id == r.id ==> (#[trigger] after.has(i) <==> i == r),
        !sk.gone(r),
        after.is_alive(r),
        forall|f: FieldId|
            f.0 != FIELD_ALIVE && sk.field_known(r.ty, f) ==> #[trigger] after.value(r, f)
                == init_value(
                reqs[born.len() as int].init@,
                reqs[born.len() as int].init@.len() as int,
                f,
                sk.at(r.ty).default_of(f.0 as int),
            ),
    ensures
        births(after, s0, reqs, born.push(Some(r))),
{
    let b = born.push(Some(r));
    let n = born.len() as int;
    let q = reqs[n];
    lemma_schema_refs(sk, s0);
    lemma_init_error_schema(sk, s0, q.ty, q.init@, q.init@.len() as int);
    assert(sk.types@[q.ty.0 as int].same_schema(s0.types@[q.ty.0 as int]));
    assert(after.same_schema(s0)) by {
        assert forall|x: int| 0 <= x < after.types@.len() implies (
        #[trigger] after.types@[x]).same_schema(s0.types@[x]) by {
            assert(sk.types@[x].same_schema(s0.types@[x]));
        }
    }
    assert forall|i: InstanceId| s0.gone(i) implies #[trigger] after.gone(i) by {
        assert(sk.gone(i));
    }
    assert(!s0.has(r)) by {
        assert(!sk.has(r));
    }
    assert forall|i: InstanceId| sk.has(i) implies (i.ty != r.ty || i.id != r.id) by {}
    assert forall|k: int|
        #![trigger b[k]]
        0 <= k < b.len() implies {
        let ty = reqs[k].ty;
        let init = reqs[k].init@;
        let bad = !s0.known(ty) || init_error(s0, ty, init, init.len() as int) is Some;
        &&& bad ==> b[k] is None
        &&& b[k] is None ==> bad || !after.at(ty).room()
        &&& b[k] is Some ==> {
            let x = b[k]->0;
            &&& x.ty == ty
            &&& x.id == births_layout(s0, ty, b, k).next_id()
            &&& x.generation == births_layout(s0, ty, b, k).next_generation()
            &&& !s0.has(x)
            &&& !s0.gone(x)
            &&& after.is_alive(x)
            &&& forall|f: FieldId|
                f.0 != FIELD_ALIVE && s0.field_known(ty, f) ==> #[trigger] after.value(x, f)
                    == init_value(init, init.len() as int, f, s0.at(ty).default_of(f.0 as int))
        }
    } by {
        let ty = reqs[k].ty;
        lemma_births_layout(s0, ty, born, b, k);
        if k < n {
            assert(b[k] == born[k]);
            if born[k] is Some {
                let x = born[k]->0;
                assert(sk.is_alive(x));
                assert(sk.has(x));
                assert(x.ty != r.ty || x.id != r.id);
                assert(after.is_alive(x));
                assert forall|f: FieldId|
                    f.0 != FIELD_ALIVE && s0.field_known(ty, f) implies #[trigger] after.value(x, f)
                    == init_value(
                    reqs[k].init@,
                    reqs[k].init@.len() as int,
                    f,
                    s0.at(ty).default_of(f.0 as int),
                ) by {
                    assert(sk.value(x, f) == after.value(x, f));
                }
            } else if s0.known(ty) {
                assert(sk.known(ty));
                assert(after.at(ty).layout() == (if ty == r.ty {
                    sk.at(ty).layout().with_new(sk.at(ty).policy)
                } else {
                    sk.at(ty).layout()
                }));
            }
        } else {
            assert forall|f: FieldId|
                f.0 != FIELD_ALIVE && s0.field_known(ty, f) implies #[trigger] after.value(r, f)
                == init_value(
                q.init@,
                q.init@.len() as int,
                f,
                s0.at(ty).default_of(f.0 as int),
            ) by {
                assert(sk.field_known(ty, f));
            }
            assert(!s0.gone(r)) by {
                if s0.gone(r) {
                    assert(sk.gone(r));
                }
            }
        }
    }
    assert forall|j: int, k: int|
        #![trigger b[j], b[k]]
        0 <= j < k < b.len() && b[j] is Some && b[k] is Some implies b[j]->0 != b[k]->0 by {
        assert(b[j] == born[j]);
        if k < n {
            assert(b[k] == born[k]);
        } else {
            assert(sk.is_alive(born[j]->0));
            assert(sk.has(born[j]->0));
        }
    }
    assert forall|i: InstanceId|
        #![trigger after.has(i)]
        after.has(i) <==> s0.has(i) || exists|k: int| 0 <= k < b.len() && #[trigger] b[k] == Some(
            i,
        ) by {
        if exists|k: int| 0 <= k < b.len() && #[trigger] b[k] == Some(i) {
            let k = choose|k: int| 0 <= k < b.len() && #[trigger] b[k] == Some(i);
            if k < n {
                assert(born[k] == Some(i));
                assert(sk.has(i));
            }
        }
        if after.has(i) && !s0.has(i) {
            if i.ty == r.ty && i.id == r.id {
                assert(i == r);
                assert(b[n] == Some(i));
            } else {
                assert(sk.has(i));
                let k = choose|k: int| 0 <= k < born.len() && #[trigger] born[k] == Some(i);
                assert(b[k] == Some(i));
            }
        }
        if s0.has(i) {
            assert(sk.has(i));
        }
    }
    assert forall|i: InstanceId, f: FieldId| s0.has(i) implies #[trigger] after.value(i, f)
        == s0.value(i, f) by {
        assert(sk.has(i));
        assert(sk.value(i, f) == s0.value(i, f));
    }
    assert forall|t: EntityTypeId| s0.known(t) implies (#[trigger] after.at(t)).layout()
        == births_layout(s0, t, b, b.len() as int) by {
        assert(sk.known(t));
        assert(sk.at(t).layout() == births_layout(s0, t, born, n));
        assert(sk.types@[t.0 as int].same_schema(s0.types@[t.0 as int]));
        lemma_births_layout(s0, t, born, b, n);
    }
}

/// One of the first `n` deaths leaves the reference cell dangling.
pub open spec fn bereft(before: Store, deaths: Seq<InstanceId>, n: int, i: InstanceId, f: FieldId) -> bool {
    exists|d: int| 0 <= d < n && refers(before, i, f, #[trigger] deaths[d])
}

/// The rows of a type after the first `n` deaths.
pub open spec fn deaths_layout(
    before: Store,
    ty: EntityTypeId,
    deaths: Seq<InstanceId>,
    n: int,
) -> Layout
    decreases n,
{
    if n <= 0 {
        before.at(ty).layout()
    } else if deaths[n - 1].ty == ty {
        deaths_layout(before, ty, deaths, n - 1).without(before.at(ty).policy, deaths[n - 1].id)
    } else {
        deaths_layout(before, ty, deaths, n - 1)
    }
}

/// The data after deaths: the dead are gone for good, references of the living to them are
/// null, and everything else is as it was.
pub open spec fn died(after: Store, before: Store, deaths: Seq<InstanceId>, n: int) -> bool {
    &&& after.wf()
    &&& after.same_schema(before)
    &&& after.gone_kept(before)
    &&& forall|d: int|
        0 <= d < n ==> after.gone(#[trigger] deaths[d]) && !after.has(deaths[d])
    &&& forall|i: InstanceId|
        !deaths.take(n).contains(i) ==> (#[trigger] after.has(i) <==> before.has(i))
    &&& forall|i: InstanceId, f: FieldId|
        !deaths.take(n).contains(i) ==> #[trigger] after.value(i, f) == (if bereft(
            before,
            deaths,
            n,
            i,
            f,
        ) {
            Val::Null
        } else {
            before.value(i, f)
        })
    &&& forall|t: EntityTypeId|
        before.known(t) ==> (#[trigger] after.at(t)).layout() == deaths_layout(
            before,
            t,
            deaths,
            n,
        )
}

/// The write nulls a reference of a living instance to one of the first `n` dead.
pub open spec fn is_null_write(before: Store, deaths: Seq<InstanceId>, n: int, w: WriteModel) -> bool {
    &&& w.new == Val::Null
    &&& exists|d: int|
        0 <= d < n && refers(before, w.inst, w.field, #[trigger] deaths[d]) && w.old == Val::Ref(
            deaths[d],
        )
}

/// The log has one write for every reference that death leaves dangling, and no other.
pub open spec fn nulls_ok(
    before: Store,
    deaths: Seq<InstanceId>,
    n: int,
    nulls: Seq<WriteModel>,
) -> bool {
    &&& forall|k: int|
        0 <= k < nulls.len() ==> is_null_write(before, deaths, n, #[trigger] nulls[k])
    &&& forall|i: InstanceId, f: FieldId|
        #![trigger bereft(before, deaths, n, i, f)]
        bereft(before, deaths, n, i, f) ==> exists|k: int|
            0 <= k < nulls.len() && (#[trigger] nulls[k]).inst == i && nulls[k].field == f
    &&& forall|j: int, k: int|
        0 <= j < k < nulls.len() ==> !((#[trigger] nulls[j]).inst == (#[trigger] nulls[k]).inst
            && nulls[j].field == nulls[k].field)
}

/// The aggregates after the first `n` deaths.
pub open spec fn folds_after(fs: Seq<FoldEntryModel>, deaths: Seq<InstanceId>, n: int) -> Seq<
    FoldEntryModel,
>
    decreases n,
{
    if n <= 0 {
        fs
    } else {
        folds_without(folds_after(fs, deaths, n - 1), deaths[n - 1])
    }
}

/// The aggregates that lost members by the first `n` deaths.
pub open spec fn losing_all(fs: Seq<FoldEntryModel>, deaths: Seq<InstanceId>, n: int) -> Seq<
    (CalcId, InstanceId),
>
    decreases n,
{
    if n <= 0 {
        Seq::empty()
    } else {
        let before = folds_after(fs, deaths, n - 1);
        losing_all(fs, deaths, n - 1) + losing(before, deaths[n - 1], before.len() as int)
    }
}

/// The nulling writes of one death are those of the alive holders, each cell once.
proof fn lemma_null_log_contents(
    store: Store,
    refs: RefTable,
    dead: InstanceId,
    n: int,
)
    requires
        refs_ok(store, refs),
        0 <= n <= refs.holders_of(dead).len(),
        !store.is_alive(dead),
    ensures
        ({
            let hs = refs.holders_of(dead);
            let log = null_log(store, hs, dead, n);
            &&& forall|k: int|
                0 <= k < log.len() ==> {
                    &&& (#[trigger] log[k]).new == Val::Null
                    &&& log[k].old == Val::Ref(dead)
                    &&& refers(store, log[k].inst, log[k].field, dead)
                    &&& hs.take(n).contains((log[k].inst, log[k].field))
                }
            &&& forall|x: int|
                0 <= x < n && store.is_alive((#[trigger] hs[x]).0) ==> exists|k: int|
                    0 <= k < log.len() && (#[trigger] log[k]).inst == hs[x].0 && log[k].field
                        == hs[x].1
            &&& forall|j: int, k: int|
                0 <= j < k < log.len() ==> !((#[trigger] log[j]).inst == (#[trigger] log[k]).inst
                    && log[j].field == log[k].field)
        }),
    decreases n,
{
    let hs = refs.holders_of(dead);
    let log = null_log(store, hs, dead, n);
    if n > 0 {
        lemma_null_log_contents(store, refs, dead, n - 1);
        let prev = null_log(store, hs, dead, n - 1);
        let h = hs[n - 1];
        assert(refs.has(
            crate::runtime::refs::Edge { target: dead, holder: hs[n - 1].0, field: hs[n - 1].1 },
        ));
        assert(hs.take(n) =~= hs.take(n - 1).push(h));
        assert(hs.take(n)[n - 1] == h);
        assert forall|k: int| 0 <= k < log.len() implies {
            &&& (#[trigger] log[k]).new == Val::Null
            &&& log[k].old == Val::Ref(dead)
            &&& refers(store, log[k].inst, log[k].field, dead)
            &&& hs.take(n).contains((log[k].inst, log[k].field))
        } by {
            if k < prev.len() {
                assert(log[k] == prev[k]);
                let p = (prev[k].inst, prev[k].field);
                assert(hs.take(n - 1).contains(p));
                let part = hs.take(n - 1);
                let x = choose|x: int| 0 <= x < part.len() && part[x] == p;
                assert(hs.take(n)[x] == p);
            }
        }
        assert forall|x: int| 0 <= x < n && store.is_alive((#[trigger] hs[x]).0) implies exists|
            k: int,
        |
            0 <= k < log.len() && (#[trigger] log[k]).inst == hs[x].0 && log[k].field == hs[x].1 by {
            if x < n - 1 {
                let k = choose|k: int|
                    0 <= k < prev.len() && (#[trigger] prev[k]).inst == hs[x].0 && prev[k].field
                        == hs[x].1;
                assert(log[k] == prev[k]);
            } else {
                assert(log[log.len() - 1].inst == hs[x].0);
            }
        }
        assert forall|j: int, k: int| 0 <= j < k < log.len() implies !((#[trigger] log[j]).inst == (
        #[trigger] log[k]).inst && log[j].field == log[k].field) by {
            assert(log[j] == prev[j]);
            if k < prev.len() {
                assert(log[k] == prev[k]);
            } else {
                let p = (prev[j].inst, prev[j].field);
                assert(hs.take(n - 1).contains(p));
                let part = hs.take(n - 1);
                let x = choose|x: int| 0 <= x < part.len() && part[x] == p;
                assert(hs[x] == p);
                assert(hs[x] != hs[n - 1]);
            }
        }
    }
}

/// What does not exist reads null.
proof fn lemma_absent(store: Store, i: InstanceId, f: FieldId)
    requires
        !store.has(i),
    ensures
        store.value(i, f) == Val::Null,
        !store.is_alive(i),
{
}

/// Settles the deaths of a frame.
fn settle_all(
    store: &mut Store,
    refs: &mut RefTable,
    folds: &mut FoldTable,
    dirty: &mut Vec<(CalcId, InstanceId)>,
    deaths: &Vec<InstanceId>,
    next: &mut Vec<WriteRec>,
    infos: Ghost<Seq<CalcInfo>>,
) -> (nulls: Ghost<Seq<WriteModel>>)
    requires
        old(store).wf(),
        refs_ok(*old(store), *old(refs)),
        old(folds).wf(),
        folds_ok(folds_of(old(folds)@), infos@),
        dirty_ok(old(dirty)@, folds_of(old(folds)@), infos@),
        deaths@.no_duplicates(),
        forall|d: int|
            0 <= d < deaths@.len() ==> old(store).has(#[trigger] deaths@[d]) && !old(
                store,
            ).is_alive(deaths@[d]),
    ensures
        died(*final(store), *old(store), deaths@, deaths@.len() as int),
        refs_ok(*final(store), *final(refs)),
        folds_of(final(folds)@) == folds_after(
            folds_of(old(folds)@),
            deaths@,
            deaths@.len() as int,
        ),
        final(dirty)@ == old(dirty)@ + losing_all(
            folds_of(old(folds)@),
            deaths@,
            deaths@.len() as int,
        ),
        final(folds).wf(),
        folds_ok(folds_of(final(folds)@), infos@),
        dirty_ok(final(dirty)@, folds_of(final(folds)@), infos@),
        log_of(final(next)@) == log_of(old(next)@) + nulls@,
        nulls_ok(*old(store), deaths@, deaths@.len() as int, nulls@),
{
    let ghost s0 = *store;
    let ghost l0 = log_of(next@);
    let ghost f0 = folds_of(folds@);
    let ghost d0 = dirty@;
    let ghost mut nulls: Seq<WriteModel> = Seq::empty();
    let mut k: usize = 0;
    proof {
        assert(deaths@.take(0) =~= Seq::empty());
        assert(log_of(next@) =~= l0 + nulls);
        assert(dirty@ =~= d0 + losing_all(f0, deaths@, 0));
    }
    while k < deaths.len()
        invariant
            k <= deaths@.len(),
            s0.wf(),
            deaths@.no_duplicates(),
            forall|d: int|
                0 <= d < deaths@.len() ==> s0.has(#[trigger] deaths@[d]) && !s0.is_alive(deaths@[d]),
            died(*store, s0, deaths@, k as int),
            refs_ok(*store, *refs),
            folds_of(folds@) == folds_after(f0, deaths@, k as int),
            dirty@ == d0 + losing_all(f0, deaths@, k as int),
            folds.wf(),
            folds_ok(folds_of(folds@), infos@),
            dirty_ok(dirty@, folds_of(folds@), infos@),
            log_of(next@) == l0 + nulls,
            nulls_ok(s0, deaths@, k as int, nulls),
        decreases deaths@.len() - k,
    {
        let d = deaths[k];
        let ghost sk = *store;
        let ghost rk = *refs;
        let ghost lk = log_of(next@);
        let ghost ki = k as int;
        proof {
            assert(!deaths@.take(ki).contains(d)) by {
                if deaths@.take(ki).contains(d) {
                    let x = choose|x: int| 0 <= x < ki && deaths@.take(ki)[x] == d;
                    assert(deaths@[x] == deaths@[ki]);
                }
            }
            assert(s0.has(d));
            assert(sk.has(d));
            assert(!bereft(s0, deaths@, ki, d, FieldId(FIELD_ALIVE)));
            assert(!sk.is_alive(d));
        }
        revoke_from_folds(folds, dirty, d, infos);
        settle_death(store, refs, d, next);
        proof {
            let n = rk.holders_of(d).len() as int;
            let more = null_log(sk, rk.holders_of(d), d, n);
            lemma_null_log_contents(sk, rk, d, n);
            assert(dirty@ =~= d0 + losing_all(f0, deaths@, ki + 1));
            lemma_died_step(*store, sk, s0, deaths@, ki);
            lemma_nulls_step(sk, rk, s0, deaths@, ki, nulls, more);
            assert(log_of(next@) =~= l0 + (nulls + more));
            nulls = nulls + more;
        }
        k = k + 1;
    }
    Ghost(nulls)
}

proof fn lemma_take_deaths(deaths: Seq<InstanceId>, k: int, i: InstanceId)
    requires
        0 <= k < deaths.len(),
    ensures
        deaths.take(k + 1).contains(i) <==> deaths.take(k).contains(i) || i == deaths[k],
{
    let a = deaths.take(k + 1);
    let b = deaths.take(k);
    if b.contains(i) {
        let j = choose|j: int| 0 <= j < b.len() && b[j] == i;
        assert(a[j] == i);
    }
    if a.contains(i) {
        let j = choose|j: int| 0 <= j < a.len() && a[j] == i;
        if j < k {
            assert(b[j] == i);
        }
    }
    assert(a[k] == deaths[k]);
}

/// Who refers to the next to die is not changed by the earlier deaths.
proof fn lemma_refers_kept(
    sk: Store,
    s0: Store,
    deaths: Seq<InstanceId>,
    k: int,
    i: InstanceId,
    f: FieldId,
)
    requires
        s0.wf(),
        died(sk, s0, deaths, k),
        0 <= k < deaths.len(),
        deaths.no_duplicates(),
        forall|d: int|
            0 <= d < deaths.len() ==> s0.has(#[trigger] deaths[d]) && !s0.is_alive(deaths[d]),
    ensures
        refers(sk, i, f, deaths[k]) <==> refers(s0, i, f, deaths[k]),
{
    lemma_schema_refs(sk, s0);
    if deaths.take(k).contains(i) {
        let j = choose|j: int| 0 <= j < k && deaths.take(k)[j] == i;
        assert(deaths[j] == i);
        assert(!sk.has(i));
        lemma_absent(sk, i, FieldId(FIELD_ALIVE));
        assert(!s0.is_alive(i));
    } else {
        assert(sk.value(i, f) == (if bereft(s0, deaths, k, i, f) {
            Val::Null
        } else {
            s0.value(i, f)
        }));
        assert(sk.is_alive(i) <==> s0.is_alive(i)) by {
            assert(sk.value(i, FieldId(FIELD_ALIVE)) == (if bereft(
                s0,
                deaths,
                k,
                i,
                FieldId(FIELD_ALIVE),
            ) {
                Val::Null
            } else {
                s0.value(i, FieldId(FIELD_ALIVE))
            }));
        }
        if bereft(s0, deaths, k, i, f) {
            let d = choose|d: int| 0 <= d < k && refers(s0, i, f, #[trigger] deaths[d]);
            assert(s0.value(i, f) == Val::Ref(deaths[d]));
            assert(deaths[d] != deaths[k]);
        }
    }
}

proof fn lemma_bereft_step(
    s0: Store,
    deaths: Seq<InstanceId>,
    k: int,
    i: InstanceId,
    f: FieldId,
)
    requires
        0 <= k < deaths.len(),
    ensures
        bereft(s0, deaths, k + 1, i, f) <==> bereft(s0, deaths, k, i, f) || refers(
            s0,
            i,
            f,
            deaths[k],
        ),
{
    if bereft(s0, deaths, k + 1, i, f) {
        let d = choose|d: int| 0 <= d < k + 1 && refers(s0, i, f, #[trigger] deaths[d]);
        if d < k {
            assert(refers(s0, i, f, deaths[d]));
        }
    }
    if bereft(s0, deaths, k, i, f) {
        let d = choose|d: int| 0 <= d < k && refers(s0, i, f, #[trigger] deaths[d]);
        assert(refers(s0, i, f, deaths[d]));
    }
}

proof fn lemma_died_step(
    after: Store,
    sk: Store,
    s0: Store,
    deaths: Seq<InstanceId>,
    k: int,
)
    requires
        s0.wf(),
        died(sk, s0, deaths, k),
        0 <= k < deaths.len(),
        deaths.no_duplicates(),
        forall|d: int|
            0 <= d < deaths.len() ==> s0.has(#[trigger] deaths[d]) && !s0.is_alive(deaths[d]),
        after.wf(),
        after.same_schema(sk),
        after.gone_kept(sk),
        after.gone(deaths[k]),
        forall|i: InstanceId|
            i.ty == deaths[k].ty && i.id == deaths[k].id ==> !#[trigger] after.has(i),
        forall|i: InstanceId|
            i.ty != deaths[k].ty || i.id != deaths[k].id ==> (#[trigger] after.has(i) <==> sk.has(
                i,
            )),
        forall|i: InstanceId, f: FieldId|
            i.ty != deaths[k].ty || i.id != deaths[k].id ==> #[trigger] after.value(i, f) == (
            if refers(sk, i, f, deaths[k]) {
                Val::Null
            } else {
                sk.value(i, f)
            }),
        sk.has(deaths[k]),
        after.layouts_without(sk, deaths[k]),
    ensures
        died(after, s0, deaths, k + 1),
{
    let d = deaths[k];
    assert forall|t: EntityTypeId| s0.known(t) implies (#[trigger] after.at(t)).layout()
        == deaths_layout(s0, t, deaths, k + 1) by {
        assert(sk.known(t));
        assert(sk.at(t).layout() == deaths_layout(s0, t, deaths, k));
        assert(sk.types@[t.0 as int].same_schema(s0.types@[t.0 as int]));
    }
    assert(after.same_schema(s0)) by {
        assert forall|x: int| 0 <= x < after.types@.len() implies (
        #[trigger] after.types@[x]).same_schema(s0.types@[x]) by {
            assert(sk.types@[x].same_schema(s0.types@[x]));
        }
    }
    assert forall|i: InstanceId| s0.gone(i) implies #[trigger] after.gone(i) by {
        assert(sk.gone(i));
    }
    assert forall|x: int| 0 <= x < k + 1 implies after.gone(#[trigger] deaths[x]) && !after.has(
        deaths[x],
    ) by {
        if x < k {
            assert(sk.gone(deaths[x]) && !sk.has(deaths[x]));
            assert(after.gone(deaths[x]));
        }
    }
    assert forall|i: InstanceId| !deaths.take(k + 1).contains(i) implies (#[trigger] after.has(i)
        <==> s0.has(i)) by {
        lemma_take_deaths(deaths, k, i);
        assert(sk.has(i) <==> s0.has(i));
        if i.ty == d.ty && i.id == d.id && s0.has(i) {
            assert(s0.has(d));
            assert(i == d);
        }
    }
    assert forall|i: InstanceId, f: FieldId|
        !deaths.take(k + 1).contains(i) implies #[trigger] after.value(i, f) == (if bereft(
        s0,
        deaths,
        k + 1,
        i,
        f,
    ) {
        Val::Null
    } else {
        s0.value(i, f)
    }) by {
        lemma_take_deaths(deaths, k, i);
        lemma_bereft_step(s0, deaths, k, i, f);
        lemma_refers_kept(sk, s0, deaths, k, i, f);
        assert(sk.value(i, f) == (if bereft(s0, deaths, k, i, f) {
            Val::Null
        } else {
            s0.value(i, f)
        }));
        if i.ty == d.ty && i.id == d.id {
            assert(!after.has(i));
            lemma_absent(after, i, f);
            assert(!s0.has(i)) by {
                if s0.has(i) {
                    assert(s0.has(d));
                    assert(i == d);
                }
            }
            lemma_absent(s0, i, f);
        }
    }
}

proof fn lemma_nulls_step(
    sk: Store,
    rk: RefTable,
    s0: Store,
    deaths: Seq<InstanceId>,
    k: int,
    nulls: Seq<WriteModel>,
    more: Seq<WriteModel>,
)
    requires
        s0.wf(),
        died(sk, s0, deaths, k),
        refs_ok(sk, rk),
        0 <= k < deaths.len(),
        deaths.no_duplicates(),
        forall|d: int|
            0 <= d < deaths.len() ==> s0.has(#[trigger] deaths[d]) && !s0.is_alive(deaths[d]),
        nulls_ok(s0, deaths, k, nulls),
        !sk.is_alive(deaths[k]),
        more == null_log(
            sk,
            rk.holders_of(deaths[k]),
            deaths[k],
            rk.holders_of(deaths[k]).len() as int,
        ),
    ensures
        nulls_ok(s0, deaths, k + 1, nulls + more),
{
    let d = deaths[k];
    let hs = rk.holders_of(d);
    let all = nulls + more;
    lemma_null_log_contents(sk, rk, d, hs.len() as int);
    assert forall|x: int| 0 <= x < all.len() implies is_null_write(
        s0,
        deaths,
        k + 1,
        #[trigger] all[x],
    ) by {
        if x < nulls.len() {
            assert(all[x] == nulls[x]);
            assert(is_null_write(s0, deaths, k, nulls[x]));
            let y = choose|y: int|
                0 <= y < k && refers(s0, nulls[x].inst, nulls[x].field, #[trigger] deaths[y])
                    && nulls[x].old == Val::Ref(deaths[y]);
            assert(refers(s0, all[x].inst, all[x].field, deaths[y]));
        } else {
            let w = more[x - nulls.len()];
            assert(all[x] == w);
            lemma_refers_kept(sk, s0, deaths, k, w.inst, w.field);
            assert(refers(s0, w.inst, w.field, deaths[k]));
        }
    }
    assert forall|i: InstanceId, f: FieldId|
        #![trigger bereft(s0, deaths, k + 1, i, f)]
        bereft(s0, deaths, k + 1, i, f) implies exists|x: int|
        0 <= x < all.len() && (#[trigger] all[x]).inst == i && all[x].field == f by {
        lemma_bereft_step(s0, deaths, k, i, f);
        if bereft(s0, deaths, k, i, f) {
            let x = choose|x: int|
                0 <= x < nulls.len() && (#[trigger] nulls[x]).inst == i && nulls[x].field == f;
            assert(all[x] == nulls[x]);
        } else {
            lemma_refers_kept(sk, s0, deaths, k, i, f);
            assert(refers(sk, i, f, d));
            let e = crate::runtime::refs::Edge { target: d, holder: i, field: f };
            assert(rk.has(e));
            assert(hs.contains((i, f)));
            let z = choose|z: int| 0 <= z < hs.len() && hs[z] == (i, f);
            assert(sk.is_alive(hs[z].0));
            let x = choose|x: int|
                0 <= x < more.len() && (#[trigger] more[x]).inst == hs[z].0 && more[x].field
                    == hs[z].1;
            assert(all[nulls.len() + x] == more[x]);
        }
    }
    assert forall|a: int, b: int| 0 <= a < b < all.len() implies !((#[trigger] all[a]).inst == (
    #[trigger] all[b]).inst && all[a].field == all[b].field) by {
        if b < nulls.len() {
            assert(all[a] == nulls[a] && all[b] == nulls[b]);
        } else if a >= nulls.len() {
            assert(all[a] == more[a - nulls.len()] && all[b] == more[b - nulls.len()]);
        } else {
            let w = more[b - nulls.len()];
            assert(all[a] == nulls[a] && all[b] == w);
            assert(is_null_write(s0, deaths, k, nulls[a]));
            let y = choose|y: int|
                0 <= y < k && refers(s0, nulls[a].inst, nulls[a].field, #[trigger] deaths[y])
                    && nulls[a].old == Val::Ref(deaths[y]);
            lemma_refers_kept(sk, s0, deaths, k, w.inst, w.field);
            assert(refers(s0, w.inst, w.field, d));
            assert(deaths[y] != deaths[k]);
        }
    }
}

/// The frame was committed: the log was applied, then the requests were met, then the dead
/// were settled. All of it is in the next log.
pub open spec fn committed(
    after: Store,
    before: Store,
    log: Seq<WriteModel>,
    reqs: Seq<SpawnReq>,
    born: Seq<Option<InstanceId>>,
    next: Seq<WriteModel>,
) -> bool {
    let deaths = deaths_in(log, log.len() as int);
    exists|a: Store, b: Store, nulls: Seq<WriteModel>|
        {
            &&& #[trigger] log_applied(a, before, log)
            &&& #[trigger] births(b, a, reqs, born)
            &&& born.len() == reqs.len()
            &&& died(after, b, deaths, deaths.len() as int)
            &&& #[trigger] nulls_ok(b, deaths, deaths.len() as int, nulls)
            &&& next == log + births_log(a, reqs, born, reqs.len() as int) + nulls
        }
}

/// One of the first `n` writes ends the instance.
pub open spec fn ended_by(log: Seq<WriteModel>, n: int, d: InstanceId) -> bool {
    exists|k: int| 0 <= k < n && (#[trigger] log[k]).inst == d && log[k].field.0 == FIELD_ALIVE
}

/// Every instance that a log ends is ended by one of its writes, and once.
proof fn lemma_deaths(store: Store, log: Seq<WriteModel>, n: int)
    requires
        log_ok(store, log),
        0 <= n <= log.len(),
    ensures
        deaths_in(log, n).no_duplicates(),
        forall|d: int|
            0 <= d < deaths_in(log, n).len() ==> ended_by(log, n, #[trigger] deaths_in(log, n)[d]),
    decreases n,
{
    if n > 0 {
        lemma_deaths(store, log, n - 1);
        let a = deaths_in(log, n - 1);
        let b = deaths_in(log, n);
        assert forall|d: int| 0 <= d < b.len() implies ended_by(log, n, #[trigger] b[d]) by {
            if d < a.len() {
                assert(b[d] == a[d]);
                assert(ended_by(log, n - 1, a[d]));
                let k = choose|k: int|
                    0 <= k < n - 1 && (#[trigger] log[k]).inst == a[d] && log[k].field.0
                        == FIELD_ALIVE;
                assert(log[k].inst == b[d]);
            } else {
                assert(log[n - 1].inst == b[d]);
            }
        }
        if log[n - 1].field.0 == FIELD_ALIVE {
            assert forall|x: int, y: int|
                0 <= x < b.len() && 0 <= y < b.len() && x != y implies b[x] != b[y] by {
                let last = b.len() - 1;
                if x == last || y == last {
                    let z = if x == last {
                        y
                    } else {
                        x
                    };
                    assert(b[z] == a[z]);
                    assert(ended_by(log, n - 1, a[z]));
                    let k = choose|k: int|
                        0 <= k < n - 1 && (#[trigger] log[k]).inst == a[z] && log[k].field.0
                            == FIELD_ALIVE;
                    assert(!(log[k].inst == log[n - 1].inst && log[k].field == log[n - 1].field));
                }
            }
        }
    }
}

/// A cell that a log writes has its new value after it.
proof fn lemma_written(
    log: Seq<WriteModel>,
    n: int,
    k: int,
    before: Val,
)
    requires
        0 <= k < n <= log.len(),
        forall|i: int, j: int|
            0 <= i < j < log.len() ==> !((#[trigger] log[i]).inst == (#[trigger] log[j]).inst
                && log[i].field == log[j].field),
    ensures
        written(log, n, log[k].inst, log[k].field, before) == log[k].new,
    decreases n,
{
    if k < n - 1 {
        assert(!(log[k].inst == log[n - 1].inst && log[k].field == log[n - 1].field));
        lemma_written(log, n - 1, k, before);
    }
}

/// Commits a frame: the merged writes, the requests, the deaths.
pub fn commit(
    store: &mut Store,
    refs: &mut RefTable,
    folds: &mut FoldTable,
    dirty: &mut Vec<(CalcId, InstanceId)>,
    log: Vec<WriteRec>,
    reqs: Vec<SpawnReq>,
    infos: Ghost<Seq<CalcInfo>>,
) -> (r: (Vec<WriteRec>, Vec<Option<InstanceId>>))
    requires
        old(store).wf(),
        refs_ok(*old(store), *old(refs)),
        old(folds).wf(),
        folds_ok(folds_of(old(folds)@), infos@),
        dirty_ok(old(dirty)@, folds_of(old(folds)@), infos@),
        log_ok(*old(store), log_of(log@)),
    ensures
        final(store).wf(),
        final(store).same_schema(*old(store)),
        final(store).gone_kept(*old(store)),
        refs_ok(*final(store), *final(refs)),
        committed(
            *final(store),
            *old(store),
            log_of(log@),
            reqs@,
            r.1@,
            log_of(r.0@),
        ),
        ({
            let deaths = deaths_in(log_of(log@), log@.len() as int);
            &&& folds_of(final(folds)@) == folds_after(
                folds_of(old(folds)@),
                deaths,
                deaths.len() as int,
            )
            &&& final(dirty)@ == old(dirty)@ + losing_all(
                folds_of(old(folds)@),
                deaths,
                deaths.len() as int,
            )
        }),
        final(folds).wf(),
        folds_ok(folds_of(final(folds)@), infos@),
        dirty_ok(final(dirty)@, folds_of(final(folds)@), infos@),
{
    let ghost s0 = *store;
    let ghost m = log_of(log@);
    let ghost n = log@.len() as int;
    let deaths = apply_log(store, refs, &log);
    let ghost a = *store;
    let mut next = log;
    let born = spawn_all(store, refs, reqs, &mut next);
    let ghost b = *store;
    proof {
        lemma_deaths(s0, m, n);
        assert forall|d: int| 0 <= d < deaths@.len() implies b.has(#[trigger] deaths@[d])
            && !b.is_alive(deaths@[d]) by {
            assert(ended_by(m, n, deaths@[d]));
            let k = choose|k: int|
                0 <= k < n && (#[trigger] m[k]).inst == deaths@[d] && m[k].field.0 == FIELD_ALIVE;
            let x = deaths@[d];
            assert(s0.is_alive(x));
            assert(s0.has(x));
            assert(a.has(x));
            lemma_written(m, n, k, s0.value(x, FieldId(FIELD_ALIVE)));
            assert(m[k].field == FieldId(FIELD_ALIVE));
            assert(a.value(x, FieldId(FIELD_ALIVE)) == Val::Bool(false));
            assert(b.value(x, FieldId(FIELD_ALIVE)) == Val::Bool(false));
            assert(b.has(x));
        }
    }
    let nulls = settle_all(store, refs, folds, dirty, &deaths, &mut next, infos);
    proof {
        assert(log_applied(a, s0, m));
        assert(births(b, a, reqs@, born@));
        assert(nulls_ok(b, deaths@, deaths@.len() as int, nulls@));
        assert(store.same_schema(s0)) by {
            assert forall|x: int| 0 <= x < store.types@.len() implies (
            #[trigger] store.types@[x]).same_schema(s0.types@[x]) by {
                assert(b.types@[x].same_schema(a.types@[x]));
                assert(a.types@[x].same_schema(s0.types@[x]));
            }
        }
        assert forall|i: InstanceId| s0.gone(i) implies #[trigger] store.gone(i) by {
            assert(a.gone(i));
            assert(b.gone(i));
        }
    }
    (next, born)
}

}
