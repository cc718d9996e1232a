//! Writes, births and deaths, with the reverse table kept in step.
use crate::entity::EntityTypeId;
use crate::entity::FieldId;
use crate::entity::InstanceId;
use crate::entity::FIELD_ALIVE;
use crate::runtime::refs::is_ref;
use crate::runtime::refs::refs_complete;
use crate::runtime::refs::refs_sound;
use crate::runtime::refs::Edge;
use crate::runtime::refs::RefTable;
use crate::runtime::store::Store;
use crate::value::Val;
use crate::value::Value;
use vstd::prelude::*;

verus! {

/// One write. The instance is the writer and the written at once, and the old value is the
/// last committed one: the write log is the second buffer.
#[derive(Debug)]
pub struct WriteRec {
    pub inst: InstanceId,
    pub field: FieldId,
    pub old: Value,
    pub new: Value,
}

/// What a `WriteRec` holds.
pub ghost struct WriteModel {
    pub inst: InstanceId,
    pub field: FieldId,
    pub old: Val,
    pub new: Val,
}

impl View for WriteRec {
    type V = WriteModel;

    open spec fn view(&self) -> WriteModel {
        WriteModel { inst: self.inst, field: self.field, old: self.old@, new: self.new@ }
    }
}

/// The views of a write log.
pub open spec fn log_of(ws: Seq<WriteRec>) -> Seq<WriteModel> {
    Seq::new(ws.len(), |i: int| ws[i]@)
}

impl Clone for WriteRec {
    fn clone(&self) -> (r: WriteRec)
        ensures
            r@ == self@,
    {
        WriteRec {
            inst: self.inst,
            field: self.field,
            old: self.old.clone(),
            new: self.new.clone(),
        }
    }
}

/// Appends a write to a log.
pub fn push_log(log: &mut Vec<WriteRec>, rec: WriteRec)
    ensures
        log_of(final(log)@) == log_of(old(log)@).push(rec@),
{
    let ghost before = log@;
    log.push(rec);
    assert(log_of(log@) =~= log_of(before).push(rec@));
}

/// A copy of a log.
pub fn copy_log(log: &Vec<WriteRec>) -> (r: Vec<WriteRec>)
    ensures
        log_of(r@) == log_of(log@),
{
    let mut out: Vec<WriteRec> = Vec::new();
    let mut i: usize = 0;
    while i < log.len()
        invariant
            i <= log@.len(),
            out@.len() == i,
            forall|j: int| 0 <= j < i ==> (#[trigger] out@[j])@ == log@[j]@,
        decreases log@.len() - i,
    {
        out.push(log[i].clone());
        i = i + 1;
    }
    assert(log_of(out@) =~= log_of(log@));
    out
}

/// The reverse table agrees with the data.
pub open spec fn refs_ok(store: Store, refs: RefTable) -> bool {
    &&& refs.wf()
    &&& refs_sound(store, refs)
    &&& refs_complete(store, refs)
}

/// Brings the reverse table in step with a reference cell that changes from `before` to
/// `after`.
fn maintain_ref_reverse(
    refs: &mut RefTable,
    inst: InstanceId,
    field: FieldId,
    before: &Value,
    after: &Value,
)
    requires
        old(refs).wf(),
    ensures
        final(refs).wf(),
        forall|e: Edge| #[trigger]
            final(refs).has(e) <==> {
                ||| after@ == Val::Ref(e.target) && e.holder == inst && e.field == field
                ||| old(refs).has(e) && !(before@ == Val::Ref(e.target) && e.holder == inst
                    && e.field == field)
            },
{
    if let Value::Ref(t) = before {
        refs.remove(Edge { target: *t, holder: inst, field });
    }
    if let Value::Ref(t) = after {
        refs.add(Edge { target: *t, holder: inst, field });
    }
}

/// Writes a cell of an existing instance and keeps the reverse table in step.
pub fn write_cell(
    store: &mut Store,
    refs: &mut RefTable,
    inst: InstanceId,
    field: FieldId,
    before: &Value,
    after: &Value,
)
    requires
        old(store).wf(),
        refs_ok(*old(store), *old(refs)),
        old(store).has(inst),
        old(store).field_known(inst.ty, field),
        before@ == old(store).value(inst, field),
        field.0 == FIELD_ALIVE && after@ == Val::Bool(true) ==> old(store).is_alive(inst),
    ensures
        final(store).wf(),
        final(store).same_schema(*old(store)),
        final(store).gone_kept(*old(store)),
        refs_ok(*final(store), *final(refs)),
        !is_ref(*old(store), inst.ty, field) ==> *final(refs) == *old(refs),
        forall|i: InstanceId| #[trigger] final(store).has(i) <==> old(store).has(i),
        forall|i: InstanceId, f: FieldId| #[trigger]
            final(store).value(i, f) == (if i == inst && f == field {
                after@
            } else {
                old(store).value(i, f)
            }),
        final(store).only_type(*old(store), inst.ty),
        final(store).same_layouts(*old(store)),
{
    let ghost s0 = *store;
    let ghost r0 = *refs;
    let r = store.is_ref_field(inst.ty, field);
    if r {
        maintain_ref_reverse(refs, inst, field, before, after);
    }
    store.set(inst, field, after.clone());
    proof {
        lemma_schema_refs(*store, s0);
        assert forall|e: Edge| #[trigger] refs.has(e) implies {
            &&& store.has(e.holder)
            &&& is_ref(*store, e.holder.ty, e.field)
            &&& store.value(e.holder, e.field) == Val::Ref(e.target)
        } by {
            if r {
                if !(after@ == Val::Ref(e.target) && e.holder == inst && e.field == field) {
                    assert(r0.has(e));
                    if e.holder == inst && e.field == field {
                        assert(before@ == Val::Ref(e.target));
                    }
                }
            } else {
                assert(r0.has(e));
            }
        }
        assert forall|h: InstanceId, f: FieldId, t: InstanceId|
            #![trigger refs.has(Edge { target: t, holder: h, field: f })]
            store.is_alive(h) && is_ref(*store, h.ty, f) && store.value(h, f) == Val::Ref(
                t,
            ) implies refs.has(Edge { target: t, holder: h, field: f }) by {
            let e = Edge { target: t, holder: h, field: f };
            assert(is_ref(s0, h.ty, f));
            if h == inst && f == field {
                assert(r);
            } else {
                assert(s0.value(h, f) == Val::Ref(t));
                assert(s0.is_alive(h));
                assert(r0.has(e));
            }
        }
    }
}

/// What is a reference field follows from the schema.
pub proof fn lemma_schema_refs(a: Store, b: Store)
    requires
        a.same_schema(b),
    ensures
        forall|ty: EntityTypeId, f: FieldId| #[trigger] is_ref(a, ty, f) <==> is_ref(b, ty, f),
        forall|ty: EntityTypeId, f: FieldId| #[trigger]
            a.field_known(ty, f) <==> b.field_known(ty, f),
{
    assert forall|ty: EntityTypeId, f: FieldId| #[trigger] is_ref(a, ty, f) <==> is_ref(b, ty, f) by {
        if a.known(ty) {
            assert(a.types@[ty.0 as int].same_schema(b.types@[ty.0 as int]));
        }
    }
    assert forall|ty: EntityTypeId, f: FieldId| #[trigger] a.field_known(ty, f) <==> b.field_known(
        ty,
        f,
    ) by {
        if a.known(ty) {
            assert(a.types@[ty.0 as int].same_schema(b.types@[ty.0 as int]));
        }
    }
}

/// The value of a field after the first `n` initial writes.
pub open spec fn init_value(init: Seq<(FieldId, Value)>, n: int, f: FieldId, default: Val) -> Val
    decreases n,
{
    if n <= 0 {
        default
    } else if init[n - 1].0 == f {
        init[n - 1].1@
    } else {
        init_value(init, n - 1, f, default)
    }
}

/// The fields are known, and none is `_alive`.
pub open spec fn init_ok(store: Store, ty: EntityTypeId, init: Seq<(FieldId, Value)>) -> bool {
    &&& store.known(ty)
    &&& forall|k: int|
        0 <= k < init.len() ==> store.field_known(ty, (#[trigger] init[k]).0) && init[k].0.0
            != FIELD_ALIVE
}

/// The log of a birth: `_alive`, then the initial writes.
pub open spec fn birth_log(
    inst: InstanceId,
    t: crate::runtime::store::TypeStore,
    init: Seq<(FieldId, Value)>,
) -> Seq<WriteModel> {
    seq![
        WriteModel {
            inst,
            field: FieldId(FIELD_ALIVE),
            old: Val::Bool(false),
            new: Val::Bool(true),
        },
    ] + Seq::new(
        init.len(),
        |k: int|
            WriteModel {
                inst,
                field: init[k].0,
                old: init_value(init, k, init[k].0, t.default_of(init[k].0.0 as int)),
                new: init[k].1@,
            },
    )
}

/// Enters the references that the fields of a new instance hold by default.
fn index_defaults(store: &Store, refs: &mut RefTable, inst: InstanceId)
    requires
        store.wf(),
        old(refs).wf(),
        store.has(inst),
        refs_sound(*store, *old(refs)),
    ensures
        final(refs).wf(),
        refs_sound(*store, *final(refs)),
        forall|e: Edge| old(refs).has(e) ==> #[trigger] final(refs).has(e),
        forall|f: FieldId, t: InstanceId|
            #![trigger final(refs).has(Edge { target: t, holder: inst, field: f })]
            is_ref(*store, inst.ty, f) && store.value(inst, f) == Val::Ref(t) ==> final(refs).has(
                Edge { target: t, holder: inst, field: f },
            ),
{
    let ghost r0 = *refs;
    let n = store.fields(inst.ty).len();
    let mut i: usize = 0;
    while i < n
        invariant
            store.wf(),
            refs.wf(),
            store.has(inst),
            n == store.at(inst.ty).fields@.len(),
            n <= u32::MAX,
            i <= n,
            refs_sound(*store, *refs),
            forall|e: Edge| r0.has(e) ==> #[trigger] refs.has(e),
            forall|f: FieldId, t: InstanceId|
                #![trigger refs.has(Edge { target: t, holder: inst, field: f })]
                f.0 < i && is_ref(*store, inst.ty, f) && store.value(inst, f) == Val::Ref(t)
                    ==> refs.has(Edge { target: t, holder: inst, field: f }),
        decreases n - i,
    {
        let f = FieldId(i as u32);
        if store.is_ref_field(inst.ty, f) {
            if let Value::Ref(t) = store.read(inst, f) {
                refs.add(Edge { target: t, holder: inst, field: f });
            }
        }
        i = i + 1;
    }
}

/// What a birth leaves unchanged.
pub open spec fn birth_keeps(after: Store, before: Store, inst: InstanceId) -> bool {
    &&& after.wf()
    &&& after.same_schema(before)
    &&& after.gone_kept(before)
    &&& after.others_kept(before, inst)
    &&& after.only_type(before, inst.ty)
    &&& after.layouts_with(before, inst.ty)
}

/// Creates an instance: the runtime writes `_alive` and the initial fields in its name, and
/// logs them as ordinary writes.
pub fn spawn_now(
    store: &mut Store,
    refs: &mut RefTable,
    ty: EntityTypeId,
    init: Vec<(FieldId, Value)>,
    recs: &mut Vec<WriteRec>,
) -> (r: InstanceId)
    requires
        old(store).wf(),
        refs_ok(*old(store), *old(refs)),
        init_ok(*old(store), ty, init@),
        old(store).at(ty).room(),
    ensures
        birth_keeps(*final(store), *old(store), r),
        refs_ok(*final(store), *final(refs)),
        r.ty == ty,
        r.id == old(store).at(ty).next_id(),
        r.generation == old(store).at(ty).next_generation(),
        forall|i: InstanceId| i.ty == ty && i.id == r.id ==> !#[trigger] old(store).has(i),
        forall|i: InstanceId|
            i.ty == ty && i.id == r.id ==> (#[trigger] final(store).has(i) <==> i == r),
        !old(store).gone(r),
        final(store).is_alive(r),
        forall|f: FieldId|
            f.0 != FIELD_ALIVE && old(store).field_known(ty, f) ==> #[trigger] final(store).value(
                r,
                f,
            ) == init_value(
                init@,
                init@.len() as int,
                f,
                old(store).at(ty).default_of(f.0 as int),
            ),
        log_of(final(recs)@) == log_of(old(recs)@) + birth_log(r, old(store).at(ty), init@),
{
    let ghost s0 = *store;
    let ghost r0 = *refs;
    let ghost l0 = log_of(recs@);
    let inst = store.allocate(ty);
    let ghost s1 = *store;
    proof {
        lemma_schema_refs(s1, s0);
        assert forall|e: Edge| #[trigger] refs.has(e) implies {
            &&& s1.has(e.holder)
            &&& is_ref(s1, e.holder.ty, e.field)
            &&& s1.value(e.holder, e.field) == Val::Ref(e.target)
        } by {
            assert(s0.has(e.holder));
            assert(e.holder.ty != inst.ty || e.holder.id != inst.id);
        }
    }
    index_defaults(store, refs, inst);
    let ghost r1 = *refs;
    push_log(
        recs,
        WriteRec {
            inst,
            field: FieldId(FIELD_ALIVE),
            old: Value::Bool(false),
            new: Value::Bool(true),
        },
    );
    store.set(inst, FieldId(FIELD_ALIVE), Value::Bool(true));
    proof {
        let s2 = *store;
        lemma_schema_refs(s2, s1);
        lemma_layouts_with(s2, s1, s0, ty);
        assert(s1.types@[ty.0 as int].same_schema(s0.types@[ty.0 as int]));
        assert forall|e: Edge| #[trigger] refs.has(e) implies {
            &&& s2.has(e.holder)
            &&& is_ref(s2, e.holder.ty, e.field)
            &&& s2.value(e.holder, e.field) == Val::Ref(e.target)
        } by {
            assert(is_ref(s1, e.holder.ty, e.field));
            assert(s1.at(e.holder.ty).wf());
            assert(e.field.0 != FIELD_ALIVE);
        }
        assert forall|h: InstanceId, f: FieldId, t: InstanceId|
            #![trigger refs.has(Edge { target: t, holder: h, field: f })]
            s2.is_alive(h) && is_ref(s2, h.ty, f) && s2.value(h, f) == Val::Ref(
                t,
            ) implies refs.has(Edge { target: t, holder: h, field: f }) by {
            assert(is_ref(s1, h.ty, f));
            assert(is_ref(s0, h.ty, f));
            let e = Edge { target: t, holder: h, field: f };
            if h == inst {
                assert(s1.value(h, f) == Val::Ref(t));
                assert(r1.has(e));
            } else {
                assert(s1.is_alive(h));
                assert(s1.has(h));
                assert(h.ty != inst.ty || h.id != inst.id);
                assert(s0.value(h, f) == Val::Ref(t));
                assert(s0.is_alive(h));
                assert(r0.has(e));
            }
        }
        assert(refs_ok(s2, *refs));
        assert forall|f: FieldId|
            f.0 != FIELD_ALIVE && s0.field_known(ty, f) implies #[trigger] s2.value(inst, f)
            == init_value(init@, 0, f, s0.at(ty).default_of(f.0 as int)) by {
            assert(s1.value(inst, f) == s1.at(ty).default_of(f.0 as int));
        }
        assert(log_of(recs@) =~= l0 + birth_log(inst, s0.at(ty), init@.take(0)));
    }
    let mut k: usize = 0;
    while k < init.len()
        invariant
            k <= init@.len(),
            s0.wf(),
            init_ok(s0, ty, init@),
            inst.ty == ty,
            birth_keeps(*store, s0, inst),
            refs_ok(*store, *refs),
            forall|i: InstanceId|
                i.ty == ty && i.id == inst.id ==> (#[trigger] store.has(i) <==> i == inst),
            store.is_alive(inst),
            forall|f: FieldId|
                f.0 != FIELD_ALIVE && s0.field_known(ty, f) ==> #[trigger] store.value(inst, f)
                    == init_value(init@, k as int, f, s0.at(ty).default_of(f.0 as int)),
            log_of(recs@) == l0 + birth_log(inst, s0.at(ty), init@.take(k as int)),
        decreases init@.len() - k,
    {
        let field = init[k].0;
        let ghost sk = *store;
        let ghost lk = log_of(recs@);
        let before = store.read(inst, field);
        let after = init[k].1.clone();
        proof {
            assert(store.types@[ty.0 as int].same_schema(s0.types@[ty.0 as int]));
            assert(s0.field_known(ty, field));
        }
        write_cell(store, refs, inst, field, &before, &after);
        push_log(recs, WriteRec { inst, field, old: before, new: after });
        proof {
            assert(s0.field_known(ty, field));
            lemma_init_log(inst, s0.at(ty), init@, k as int);
            assert(log_of(recs@) =~= l0 + birth_log(inst, s0.at(ty), init@.take(k + 1)));
            assert(store.others_kept(s0, inst)) by {
                assert forall|i: InstanceId, f: FieldId|
                    i.ty != inst.ty || i.id != inst.id implies #[trigger] store.value(i, f)
                    == s0.value(i, f) by {
                    assert(sk.value(i, f) == s0.value(i, f));
                }
                assert forall|i: InstanceId| i.ty != inst.ty || i.id != inst.id implies (
                #[trigger] store.has(i) <==> s0.has(i)) by {
                    assert(sk.has(i) <==> s0.has(i));
                }
            }
            assert(store.same_schema(s0)) by {
                assert forall|x: int| 0 <= x < store.types@.len() implies (
                #[trigger] store.types@[x]).same_schema(s0.types@[x]) by {
                    assert(sk.types@[x].same_schema(s0.types@[x]));
                }
            }
            assert forall|i: InstanceId| i.ty == ty && i.id == inst.id implies (
            #[trigger] store.has(i) <==> i == inst) by {
                assert(sk.has(i) <==> i == inst);
            }
            lemma_layouts_with(*store, sk, s0, ty);
        }
        k = k + 1;
    }
    proof {
        assert(init@.take(k as int) =~= init@);
    }
    inst
}

/// Writes to the new instance keep the rows.
proof fn lemma_layouts_with(after: Store, mid: Store, before: Store, ty: EntityTypeId)
    requires
        after.only_type(mid, ty),
        after.same_layouts(mid),
        mid.only_type(before, ty),
        mid.layouts_with(before, ty),
    ensures
        after.only_type(before, ty),
        after.layouts_with(before, ty),
{
    assert forall|t: EntityTypeId| before.known(t) && t != ty implies #[trigger] after.at(t)
        == before.at(t) by {
        assert(mid.at(t) == before.at(t));
    }
    assert forall|t: EntityTypeId| before.known(t) implies (#[trigger] after.at(t)).layout() == (
    if t == ty {
        before.at(t).layout().with_new(before.at(t).policy)
    } else {
        before.at(t).layout()
    }) by {
        assert(mid.known(t));
        assert(after.at(t).layout() == mid.at(t).layout());
    }
}

/// The log grows by one write per initial field.
proof fn lemma_init_log(
    inst: InstanceId,
    t: crate::runtime::store::TypeStore,
    init: Seq<(FieldId, Value)>,
    k: int,
)
    requires
        0 <= k < init.len(),
    ensures
        birth_log(inst, t, init.take(k + 1)) == birth_log(inst, t, init.take(k)).push(
            WriteModel {
                inst,
                field: init[k].0,
                old: init_value(init, k, init[k].0, t.default_of(init[k].0.0 as int)),
                new: init[k].1@,
            },
        ),
{
    let a = birth_log(inst, t, init.take(k + 1));
    let b = birth_log(inst, t, init.take(k)).push(
        WriteModel {
            inst,
            field: init[k].0,
            old: init_value(init, k, init[k].0, t.default_of(init[k].0.0 as int)),
            new: init[k].1@,
        },
    );
    assert forall|j: int| 0 <= j <= k implies #[trigger] init_value(
        init.take(k + 1),
        j,
        init[j].0,
        t.default_of(init[j].0.0 as int),
    ) == init_value(init, j, init[j].0, t.default_of(init[j].0.0 as int)) by {
        lemma_init_prefix(init, k + 1, j, init[j].0, t.default_of(init[j].0.0 as int));
    }
    assert forall|j: int| 0 <= j < k implies #[trigger] init_value(
        init.take(k),
        j,
        init[j].0,
        t.default_of(init[j].0.0 as int),
    ) == init_value(init, j, init[j].0, t.default_of(init[j].0.0 as int)) by {
        lemma_init_prefix(init, k, j, init[j].0, t.default_of(init[j].0.0 as int));
    }
    assert(a =~= b);
}

proof fn lemma_init_prefix(
    init: Seq<(FieldId, Value)>,
    n: int,
    j: int,
    f: FieldId,
    default: Val,
)
    requires
        0 <= j <= n <= init.len(),
    ensures
        init_value(init.take(n), j, f, default) == init_value(init, j, f, default),
    decreases j,
{
    if j > 0 {
        lemma_init_prefix(init, n, j - 1, f, default);
    }
}

/// The writes that null the references of alive holders, for the first `n` holders.
pub open spec fn null_log(
    store: Store,
    holders: Seq<(InstanceId, FieldId)>,
    dead: InstanceId,
    n: int,
) -> Seq<WriteModel>
    decreases n,
{
    if n <= 0 {
        Seq::empty()
    } else if holders[n - 1].0 != dead && store.is_alive(holders[n - 1].0) {
        null_log(store, holders, dead, n - 1).push(
            WriteModel {
                inst: holders[n - 1].0,
                field: holders[n - 1].1,
                old: Val::Ref(dead),
                new: Val::Null,
            },
        )
    } else {
        null_log(store, holders, dead, n - 1)
    }
}

/// The writes depend on who is alive only.
pub proof fn lemma_null_log(
    a: Store,
    b: Store,
    holders: Seq<(InstanceId, FieldId)>,
    dead: InstanceId,
    n: int,
)
    requires
        forall|i: InstanceId| i != dead ==> (#[trigger] a.is_alive(i) <==> b.is_alive(i)),
    ensures
        null_log(a, holders, dead, n) == null_log(b, holders, dead, n),
    decreases n,
{
    if n > 0 {
        lemma_null_log(a, b, holders, dead, n - 1);
    }
}

/// The cell is a reference of an alive instance to `dead`.
pub open spec fn refers(store: Store, i: InstanceId, f: FieldId, dead: InstanceId) -> bool {
    store.is_alive(i) && is_ref(store, i.ty, f) && store.value(i, f) == Val::Ref(dead)
}

/// Settles a death: every reference of an alive holder to the dead becomes null, as a logged
/// write; the reverse table forgets the dead on both sides; the id returns to the pool.
pub fn settle_death(
    store: &mut Store,
    refs: &mut RefTable,
    dead: InstanceId,
    recs: &mut Vec<WriteRec>,
)
    requires
        old(store).wf(),
        refs_ok(*old(store), *old(refs)),
        old(store).has(dead),
        !old(store).is_alive(dead),
    ensures
        final(store).wf(),
        final(store).same_schema(*old(store)),
        final(store).gone_kept(*old(store)),
        refs_ok(*final(store), *final(refs)),
        final(store).gone(dead),
        forall|i: InstanceId|
            i.ty == dead.ty && i.id == dead.id ==> !#[trigger] final(store).has(i),
        forall|i: InstanceId|
            i.ty != dead.ty || i.id != dead.id ==> (#[trigger] final(store).has(i) <==> old(
                store,
            ).has(i)),
        forall|i: InstanceId, f: FieldId|
            i.ty != dead.ty || i.id != dead.id ==> #[trigger] final(store).value(i, f) == (
            if refers(*old(store), i, f, dead) {
                Val::Null
            } else {
                old(store).value(i, f)
            }),
        forall|e: Edge| #[trigger]
            final(refs).has(e) <==> old(refs).has(e) && e.target != dead && e.holder != dead,
        log_of(final(recs)@) == log_of(old(recs)@) + null_log(
            *old(store),
            old(refs).holders_of(dead),
            dead,
            old(refs).holders_of(dead).len() as int,
        ),
        final(store).layouts_without(*old(store), dead),
{
    let ghost s0 = *store;
    let ghost r0 = *refs;
    let ghost l0 = log_of(recs@);
    let holders = refs.holders(dead);
    let ghost hs = holders@;
    proof {
        assert(hs.no_duplicates());
        assert(log_of(recs@) =~= l0 + null_log(s0, hs, dead, 0));
        assert forall|k: int| 0 <= k < hs.len() implies s0.has((#[trigger] hs[k]).0) && is_ref(
            s0,
            hs[k].0.ty,
            hs[k].1,
        ) && s0.value(hs[k].0, hs[k].1) == Val::Ref(dead) && hs[k].1.0 != FIELD_ALIVE by {
            let e = Edge { target: dead, holder: hs[k].0, field: hs[k].1 };
            assert(r0.has(e));
            assert(s0.at(hs[k].0.ty).wf());
        }
    }
    let mut k: usize = 0;
    while k < holders.len()
        invariant
            holders@ == hs,
            hs.no_duplicates(),
            k <= hs.len(),
            s0.wf(),
            !s0.is_alive(dead),
            store.wf(),
            store.same_schema(s0),
            store.gone_kept(s0),
            store.same_layouts(s0),
            forall|j: int|
                0 <= j < hs.len() ==> s0.has((#[trigger] hs[j]).0) && is_ref(
                    s0,
                    hs[j].0.ty,
                    hs[j].1,
                ) && s0.value(hs[j].0, hs[j].1) == Val::Ref(dead) && hs[j].1.0 != FIELD_ALIVE,
            forall|i: InstanceId| #[trigger] store.has(i) <==> s0.has(i),
            forall|i: InstanceId, f: FieldId| #[trigger]
                store.value(i, f) == (if s0.is_alive(i) && hs.take(k as int).contains((i, f)) {
                    Val::Null
                } else {
                    s0.value(i, f)
                }),
            log_of(recs@) == l0 + null_log(s0, hs, dead, k as int),
        decreases hs.len() - k,
    {
        let (holder, rf) = holders[k];
        let ghost sk = *store;
        proof {
            assert(hs[k as int] == (holder, rf));
            assert(hs.take(k + 1) =~= hs.take(k as int).push((holder, rf)));
            assert(!hs.take(k as int).contains((holder, rf))) by {
                if hs.take(k as int).contains((holder, rf)) {
                    let j = choose|j: int|
                        0 <= j < k && hs.take(k as int)[j] == (holder, rf);
                    assert(hs[j] == hs[k as int]);
                }
            }
            assert(sk.is_alive(holder) <==> s0.is_alive(holder)) by {
                lemma_no_alive_holder(hs, k as int, holder);
            }
        }
        if store.alive(holder) {
            let before = store.read(holder, rf);
            proof {
                lemma_schema_refs(sk, s0);
                assert(is_ref(s0, holder.ty, rf));
                assert(sk.field_known(holder.ty, rf));
            }
            store.set(holder, rf, Value::Null);
            push_log(recs, WriteRec { inst: holder, field: rf, old: before, new: Value::Null });
        }
        proof {
            assert forall|i: InstanceId, f: FieldId| #[trigger] store.value(i, f) == (
            if s0.is_alive(i) && hs.take(k + 1).contains((i, f)) {
                Val::Null
            } else {
                s0.value(i, f)
            }) by {
                lemma_take_contains(hs, k as int, (i, f));
                assert(sk.value(i, f) == (if s0.is_alive(i) && hs.take(k as int).contains((i, f)) {
                    Val::Null
                } else {
                    s0.value(i, f)
                }));
            }
            assert(store.same_schema(s0)) by {
                assert forall|x: int| 0 <= x < store.types@.len() implies (
                #[trigger] store.types@[x]).same_schema(s0.types@[x]) by {
                    assert(sk.types@[x].same_schema(s0.types@[x]));
                }
            }
            assert(store.same_layouts(s0)) by {
                assert forall|t: EntityTypeId| s0.known(t) implies (
                #[trigger] store.at(t)).layout() == s0.at(t).layout() by {
                    assert(sk.known(t));
                    assert(sk.at(t).layout() == s0.at(t).layout());
                }
            }
            assert(log_of(recs@) =~= l0 + null_log(s0, hs, dead, k + 1));
        }
        k = k + 1;
    }
    let ghost s1 = *store;
    proof {
        assert(hs.take(k as int) =~= hs);
        lemma_schema_refs(s1, s0);
        assert forall|i: InstanceId, f: FieldId| s0.is_alive(i) && hs.contains((i, f)) <==> refers(
            s0,
            i,
            f,
            dead,
        ) by {
            if hs.contains((i, f)) {
                let j = choose|j: int| 0 <= j < hs.len() && hs[j] == (i, f);
                assert(hs[j].0 == i);
            }
            if refers(s0, i, f, dead) {
                let e = Edge { target: dead, holder: i, field: f };
                assert(r0.has(e));
            }
        }
        assert forall|i: InstanceId, f: FieldId| #[trigger] s1.value(i, f) == (if refers(
            s0,
            i,
            f,
            dead,
        ) {
            Val::Null
        } else {
            s0.value(i, f)
        }) by {}
    }
    refs.remove_target(dead);
    let ghost r1 = *refs;
    let n = store.fields(dead.ty).len();
    let mut i: usize = 0;
    while i < n
        invariant
            *store == s1,
            s1.wf(),
            s1.has(dead),
            n == s1.at(dead.ty).fields@.len(),
            n <= u32::MAX,
            i <= n,
            refs.wf(),
            forall|e: Edge| #[trigger] refs.has(e) ==> r1.has(e),
            forall|e: Edge|
                r1.has(e) && e.holder != dead ==> #[trigger] refs.has(e),
            forall|e: Edge| #[trigger]
                refs.has(e) && e.holder == dead && e.field.0 < i ==> !(is_ref(
                    s1,
                    dead.ty,
                    e.field,
                ) && s1.value(dead, e.field) == Val::Ref(e.target)),
        decreases n - i,
    {
        let f = FieldId(i as u32);
        if store.is_ref_field(dead.ty, f) {
            if let Value::Ref(t) = store.read(dead, f) {
                refs.remove(Edge { target: t, holder: dead, field: f });
            }
        }
        i = i + 1;
    }
    store.release(dead);
    proof {
        let s2 = *store;
        lemma_schema_refs(s2, s1);
        assert forall|e: Edge| #[trigger] refs.has(e) <==> r0.has(e) && e.target != dead && e.holder
            != dead by {
            if refs.has(e) && e.holder == dead {
                assert(r1.has(e));
                assert(r0.has(e));
                assert(is_ref(s0, dead.ty, e.field));
                assert(is_ref(s1, dead.ty, e.field));
                assert(s0.value(dead, e.field) == Val::Ref(e.target));
                assert(s1.value(dead, e.field) == Val::Ref(e.target));
            }
        }
        assert forall|e: Edge| #[trigger] refs.has(e) implies {
            &&& s2.has(e.holder)
            &&& is_ref(s2, e.holder.ty, e.field)
            &&& s2.value(e.holder, e.field) == Val::Ref(e.target)
        } by {
            assert(r0.has(e));
            if e.holder.ty == dead.ty && e.holder.id == dead.id {
                lemma_same_slot(s0, e.holder, dead);
            }
            assert(e.holder.ty != dead.ty || e.holder.id != dead.id);
            assert(is_ref(s0, e.holder.ty, e.field));
            assert(is_ref(s1, e.holder.ty, e.field));
            assert(s1.value(e.holder, e.field) == Val::Ref(e.target));
        }
        assert forall|h: InstanceId, f: FieldId, t: InstanceId|
            #![trigger refs.has(Edge { target: t, holder: h, field: f })]
            s2.is_alive(h) && is_ref(s2, h.ty, f) && s2.value(h, f) == Val::Ref(
                t,
            ) implies refs.has(Edge { target: t, holder: h, field: f }) by {
            let e = Edge { target: t, holder: h, field: f };
            assert(s2.has(h));
            assert(h.ty != dead.ty || h.id != dead.id);
            assert(s1.is_alive(h));
            assert(s1.value(h, FieldId(FIELD_ALIVE)) == Val::Bool(true));
            assert(s0.is_alive(h)) by {
                assert(s1.value(h, FieldId(FIELD_ALIVE)) == (if refers(
                    s0,
                    h,
                    FieldId(FIELD_ALIVE),
                    dead,
                ) {
                    Val::Null
                } else {
                    s0.value(h, FieldId(FIELD_ALIVE))
                }));
            }
            assert(is_ref(s1, h.ty, f));
            assert(is_ref(s0, h.ty, f));
            assert(s1.value(h, f) == Val::Ref(t));
            assert(s0.value(h, f) == Val::Ref(t));
            assert(!refers(s0, h, f, dead));
            assert(r0.has(e));
        }
        assert(s2.same_schema(s0)) by {
            assert forall|x: int| 0 <= x < s2.types@.len() implies (
            #[trigger] s2.types@[x]).same_schema(s0.types@[x]) by {
                assert(s1.types@[x].same_schema(s0.types@[x]));
            }
        }
        assert(s2.layouts_without(s0, dead)) by {
            assert forall|t: EntityTypeId| s0.known(t) implies (#[trigger] s2.at(t)).layout() == (
            if t == dead.ty {
                s0.at(t).layout().without(s0.at(t).policy, dead.id)
            } else {
                s0.at(t).layout()
            }) by {
                assert(s1.known(t));
                assert(s1.at(t).layout() == s0.at(t).layout());
                assert(s1.types@[t.0 as int].same_schema(s0.types@[t.0 as int]));
            }
        }
        assert(s2.gone_kept(s0)) by {
            assert forall|x: InstanceId| s0.gone(x) implies #[trigger] s2.gone(x) by {
                assert(s1.gone(x));
            }
        }
    }
}

/// Two existing instances of one type never share an id.
proof fn lemma_same_slot(store: Store, a: InstanceId, b: InstanceId)
    requires
        store.has(a),
        store.has(b),
        a.ty == b.ty,
        a.id == b.id,
    ensures
        a == b,
{
}

proof fn lemma_take_contains(
    hs: Seq<(InstanceId, FieldId)>,
    k: int,
    x: (InstanceId, FieldId),
)
    requires
        0 <= k < hs.len(),
    ensures
        hs.take(k + 1).contains(x) <==> hs.take(k).contains(x) || x == hs[k],
{
    let a = hs.take(k + 1);
    let b = hs.take(k);
    if b.contains(x) {
        let j = choose|j: int| 0 <= j < b.len() && b[j] == x;
        assert(a[j] == x);
    }
    if a.contains(x) {
        let j = choose|j: int| 0 <= j < a.len() && a[j] == x;
        if j < k {
            assert(b[j] == x);
        }
    }
    assert(a[k] == hs[k]);
}

/// `_alive` is no reference field, so nulling references leaves it alone.
proof fn lemma_no_alive_holder(hs: Seq<(InstanceId, FieldId)>, k: int, holder: InstanceId)
    requires
        0 <= k <= hs.len(),
        forall|j: int| 0 <= j < hs.len() ==> (#[trigger] hs[j]).1.0 != FIELD_ALIVE,
    ensures
        !hs.take(k).contains((holder, FieldId(FIELD_ALIVE))),
{
    if hs.take(k).contains((holder, FieldId(FIELD_ALIVE))) {
        let j = choose|j: int|
            0 <= j < k && hs.take(k)[j] == (holder, FieldId(FIELD_ALIVE));
        assert(hs[j].1.0 != FIELD_ALIVE);
    }
}

}
