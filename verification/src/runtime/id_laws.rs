//! How ids and rows are given out and taken back, and which calculations are registered.
use crate::runtime::indexes::lemma_cell_key;
use crate::runtime::register::owned_key;
use crate::runtime::CalcOptions;
use crate::runtime::engine::Runtime;
use crate::calculation::CalcId;
use crate::entity::EntityTypeId;
use crate::entity::FieldId;
use crate::entity::FIELD_ALIVE;
use crate::predicate::Predicate;
use crate::runtime::clock::Clock;
use crate::runtime::indexes::cell_key;
use crate::runtime::plan_laws::chooses_between_conjunctions;
use crate::runtime::plan_laws::law_groups_ask_for_the_same;
use crate::runtime::refs::is_ref;
use crate::runtime::registry::atom_error;
use crate::runtime::registry::distinct_groups;
use crate::runtime::registry::group_error;
use crate::runtime::registry::groups_error;
use crate::runtime::registry::is_every_frame;
use crate::runtime::registry::register_error;
use crate::runtime::registry::write_error;
use crate::runtime::registry::writes_error;
use crate::runtime::registry::RegisterError;
use crate::runtime::scope::flattened;
use crate::runtime::scope::law_distinct;
use crate::runtime::scope::Atom;
use crate::runtime::store::Layout;
use crate::runtime::store::RowPolicy;
use crate::runtime::store::Store;
use vstd::prelude::*;

verus! {

/// Who comes next gets the id that became free last, under a generation that its holders did
/// not have, and otherwise an id that nobody had.
pub proof fn law_ids_come_back_under_a_new_generation(l: Layout, policy: RowPolicy, id: u32)
    requires
        id < l.id_slot.len() <= u32::MAX,
        l.id_slot[id as int].row is Some,
        l.id_slot[id as int].row->0 < l.row_id.len(),
        l.row_id.last() < l.id_slot.len(),
    ensures
        l.id_slot[id as int].generation < u64::MAX ==> {
            let r = l.without(policy, id);
            &&& r.next_id() == id
            &&& r.next_generation() == l.id_slot[id as int].generation + 1
            &&& r.free_ids.drop_last() == l.free_ids
        },
        l.id_slot[id as int].generation == u64::MAX ==> l.without(policy, id).free_ids
            == l.free_ids,
        l.free_ids.len() == 0 ==> l.next_id() == l.id_slot.len() && l.next_generation() == 0,
{
    assert(l.free_ids.push(id).drop_last() =~= l.free_ids);
}

/// One instance more is found by its id in its row, under its generation, and the others are
/// where they were.
pub proof fn law_new_instances_are_found(l: Layout, policy: RowPolicy, other: int)
    requires
        l.id_slot.len() < u32::MAX,
        l.row_id.len() < u32::MAX,
        l.slots.len() == l.row_id.len(),
        l.free_ids.len() > 0 ==> l.free_ids.last() < l.id_slot.len(),
        l.free_rows.len() > 0 ==> l.free_rows.last() < l.row_id.len(),
        0 <= other < l.id_slot.len(),
    ensures
        ({
            let r = l.with_new(policy);
            let id = l.next_id() as int;
            let row = l.next_row(policy) as int;
            &&& r.id_slot[id].row == Some(l.next_row(policy))
            &&& r.id_slot[id].generation == l.next_generation()
            &&& r.row_id[row] == id
            &&& r.slots[row].live
            &&& r.slots[row].generation == l.next_generation()
            &&& other != id ==> r.id_slot[other] == l.id_slot[other]
            &&& forall|k: int|
                0 <= k < l.row_id.len() && k != row ==> r.row_id[k] == l.row_id[k] && r.slots[k]
                    == l.slots[k]
            &&& r.row_id.len() == l.row_id.len() || r.row_id.len() == l.row_id.len() + 1
            &&& policy == RowPolicy::Compact ==> row == l.row_id.len()
        }),
{
}

/// A field can be declared as written where it is there, is not the clock's, and has no other
/// owner. Lives have no owner.
pub open spec fn can_be_written(
    store: Store,
    owners: Map<u64, CalcId>,
    clock: Clock,
    ty: EntityTypeId,
    f: FieldId,
) -> bool {
    &&& store.known(ty)
    &&& store.field_known(ty, f)
    &&& ty != clock.ty
    &&& f.0 == FIELD_ALIVE || !owners.contains_key(cell_key(ty, f))
}

/// A cell can be watched where its field is there, and a reference that leads to it is one.
pub open spec fn can_be_watched(store: Store, ty: EntityTypeId, a: Atom) -> bool {
    match a {
        Atom::Own(f) => store.known(ty) && store.field_known(ty, f),
        Atom::Inst { ref_field, field } => store.known(ty) && store.field_known(ty, ref_field)
            && is_ref(store, ty, ref_field),
        Atom::Type(t, f) => store.known(t) && store.field_known(t, f),
    }
}

/// A calculation is registered where its scope does not choose between conjunctions, a
/// conjunction delivers hit by hit, each field that it writes can be written, and each cell
/// that it watches can be watched; and nothing else keeps it out but the number of
/// calculations.
pub proof fn law_which_calculations_are_registered(
    store: Store,
    owners: Map<u64, CalcId>,
    clock: Clock,
    n_calcs: nat,
    ty: EntityTypeId,
    pred: Predicate,
    writes: Seq<FieldId>,
)
    requires
        n_calcs < u32::MAX,
        flattened(pred.scope) is Some ==> flattened(pred.scope)->0.len() <= u32::MAX,
    ensures
        register_error(store, owners, clock, n_calcs, ty, pred, writes) is None <==> {
            &&& !chooses_between_conjunctions(pred.scope)
            &&& flattened(pred.scope)->0.len() > 1 ==> pred.delivery is Each
            &&& forall|k: int|
                0 <= k < writes.len() ==> can_be_written(
                    store,
                    owners,
                    clock,
                    ty,
                    #[trigger] writes[k],
                )
            &&& is_every_frame(clock, distinct_groups(flattened(pred.scope)->0), pred) || forall|
                g: int,
                a: Atom,
            |
                0 <= g < flattened(pred.scope)->0.len() && #[trigger] flattened(
                    pred.scope,
                )->0[g].contains(a) ==> can_be_watched(store, ty, a)
        },
        chooses_between_conjunctions(pred.scope) <==> register_error(
            store,
            owners,
            clock,
            n_calcs,
            ty,
            pred,
            writes,
        ) == Some(RegisterError::ScopeNesting),
{
    law_groups_ask_for_the_same(pred.scope, |a: Atom| true);
    lemma_writes(store, owners, clock, ty, writes, writes.len() as int);
    if flattened(pred.scope) is Some {
        let fs = flattened(pred.scope)->0;
        let gs = distinct_groups(fs);
        lemma_groups(store, ty, gs, gs.len() as int);
        assert forall|g: int, a: Atom|
            #![trigger fs[g].contains(a)]
            0 <= g < fs.len() implies (fs[g].contains(a) <==> gs[g].contains(a)) by {
            law_distinct(fs[g]);
        }
        if forall|g: int, a: Atom|
            0 <= g < fs.len() && #[trigger] fs[g].contains(a) ==> can_be_watched(store, ty, a) {
            assert forall|g: int, a: Atom|
                0 <= g < gs.len() && #[trigger] gs[g].contains(a) implies can_be_watched(
                store,
                ty,
                a,
            ) by {
                assert(fs[g].contains(a) <==> gs[g].contains(a));
            }
        }
        if forall|g: int, a: Atom|
            0 <= g < gs.len() && #[trigger] gs[g].contains(a) ==> can_be_watched(store, ty, a) {
            assert forall|g: int, a: Atom|
                0 <= g < fs.len() && #[trigger] fs[g].contains(a) implies can_be_watched(
                store,
                ty,
                a,
            ) by {
                assert(gs[g].contains(a));
            }
        }
    }
}

proof fn lemma_writes(
    store: Store,
    owners: Map<u64, CalcId>,
    clock: Clock,
    ty: EntityTypeId,
    writes: Seq<FieldId>,
    n: int,
)
    requires
        0 <= n <= writes.len(),
    ensures
        writes_error(store, owners, clock, ty, writes, n) is None <==> forall|k: int|
            0 <= k < n ==> can_be_written(store, owners, clock, ty, #[trigger] writes[k]),
        writes_error(store, owners, clock, ty, writes, n) != Some(RegisterError::ScopeNesting),
    decreases n,
{
    if n > 0 {
        lemma_writes(store, owners, clock, ty, writes, n - 1);
        let w = writes[n - 1];
        assert(write_error(store, owners, clock, ty, w) is None <==> can_be_written(
            store,
            owners,
            clock,
            ty,
            w,
        ));
    }
}

proof fn lemma_group(store: Store, ty: EntityTypeId, g: Seq<Atom>, n: int)
    requires
        0 <= n <= g.len(),
    ensures
        group_error(store, ty, g, n) is None <==> forall|k: int|
            0 <= k < n ==> can_be_watched(store, ty, #[trigger] g[k]),
        group_error(store, ty, g, n) != Some(RegisterError::ScopeNesting),
    decreases n,
{
    if n > 0 {
        lemma_group(store, ty, g, n - 1);
        let a = g[n - 1];
        assert(atom_error(store, ty, a) is None <==> can_be_watched(store, ty, a));
    }
}

proof fn lemma_groups(store: Store, ty: EntityTypeId, gs: Seq<Seq<Atom>>, n: int)
    requires
        0 <= n <= gs.len(),
    ensures
        groups_error(store, ty, gs, n) is None <==> forall|g: int, a: Atom|
            0 <= g < n && #[trigger] gs[g].contains(a) ==> can_be_watched(store, ty, a),
        groups_error(store, ty, gs, n) != Some(RegisterError::ScopeNesting),
    decreases n,
{
    if n > 0 {
        lemma_groups(store, ty, gs, n - 1);
        let g = gs[n - 1];
        lemma_group(store, ty, g, g.len() as int);
        if group_error(store, ty, g, g.len() as int) is None {
            assert forall|a: Atom| #[trigger] g.contains(a) implies can_be_watched(
                store,
                ty,
                a,
            ) by {
                let k = choose|k: int| 0 <= k < g.len() && g[k] == a;
                assert(can_be_watched(store, ty, g[k]));
            }
        }
        if forall|x: int, a: Atom|
            0 <= x < n && #[trigger] gs[x].contains(a) ==> can_be_watched(store, ty, a) {
            assert forall|k: int| 0 <= k < g.len() implies can_be_watched(
                store,
                ty,
                #[trigger] g[k],
            ) by {
                assert(gs[n - 1].contains(g[k]));
            }
            assert forall|x: int, a: Atom|
                0 <= x < n - 1 && #[trigger] gs[x].contains(a) implies can_be_watched(
                store,
                ty,
                a,
            ) by {}
        }
    }
}

/// A calculation that was registered owns the fields that it declares, other than lives, and
/// whoever owned a field before owns it still.
pub proof fn law_the_registered_own_their_fields<F>(
    after: Runtime<F>,
    before: Runtime<F>,
    name: Seq<char>,
    ty: EntityTypeId,
    pred: Predicate,
    writes: Seq<FieldId>,
    opts: CalcOptions,
    body: F,
    id: CalcId,
    k: int,
    t: EntityTypeId,
    f: FieldId,
)
    requires
        after.calc_registered(before, name, ty, pred, writes, opts, body, id),
        0 <= k < writes.len(),
    ensures
        id.0 == before.infos@.len(),
        after.infos@.last().pred == pred,
        after.infos@.last().ty == ty,
        after.infos@.last().opts == opts,
        after.bodies@.last() == body,
        writes[k].0 != FIELD_ALIVE ==> after.owners@.contains_key(cell_key(ty, writes[k]))
            && after.owners@[cell_key(ty, writes[k])] == id,
        before.owners@.contains_key(cell_key(t, f)) && !(t == ty && writes.contains(f))
            ==> after.owners@.contains_key(cell_key(t, f)) && after.owners@[cell_key(t, f)]
            == before.owners@[cell_key(t, f)],
{
    let n = writes.len() as int;
    assert(writes[k].0 != FIELD_ALIVE ==> owned_key(ty, writes, cell_key(ty, writes[k]), n));
    if owned_key(ty, writes, cell_key(t, f), n) {
        let i = choose|i: int|
            0 <= i < n && (#[trigger] writes[i]).0 != FIELD_ALIVE && cell_key(t, f) == cell_key(
                ty,
                writes[i],
            );
        lemma_cell_key(t, f, ty, writes[i]);
        assert(writes.contains(writes[i]));
    }
}

}
