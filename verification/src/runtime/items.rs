//! What the items of a delivery are: what each item asks for of the write, of its writer, or
//! of the subscriber, whoever that is.
use crate::calculation::CalcId;
use crate::calculation::InputModel;
use crate::entity::InstanceId;
use crate::predicate::expr_value;
use crate::predicate::Proj;
use crate::runtime::batch::canonical;
use crate::runtime::batch::law_canonical_sorts;
use crate::runtime::batch::place_of;
use crate::runtime::engine::Runtime;
use crate::runtime::eval::env_of;
use crate::runtime::laws::delivered;
use crate::runtime::laws::law_triggers_come_of_writes;
use crate::runtime::lifecycle::WriteModel;
use crate::runtime::route::batch_key;
use crate::runtime::route::Frame;
use crate::runtime::route::RowModel;
use crate::runtime::route::Trig;
use crate::runtime::routing::frame_triggers;
use crate::runtime::routing::route_log;
use crate::runtime::routing::World;
use crate::runtime::schedule::ecs_trigs;
use crate::runtime::shares::law_triggers_are_what_is_owed;
use crate::runtime::shares::received;
use crate::runtime::shares::rows_of_writes;
use crate::runtime::shares::trigs_for;
use crate::runtime::store::Store;
use crate::runtime::CalcInfo;
use crate::runtime::Determinism;
use crate::value::path_of;
use crate::value::Val;
use vstd::prelude::*;

verus! {

/// Every trigger of a delivery hit by hit comes of one write, delivered to its subscriber:
/// an item that asks for the new or the old value gets the write's, one that asks for the
/// writer gets the instance that was written, one that asks for an own field gets what the
/// subscriber's row holds, and an expression its value.
pub proof fn law_items_are_those_of_the_write(
    world: World,
    start: Frame,
    log: Seq<WriteModel>,
    n: int,
    t: Trig,
)
    requires
        0 <= n <= log.len(),
        start.triggers.len() == 0,
        route_log(world, start, log, n).triggers.contains(t),
    ensures
        world.infos[t.calc.0 as int].pred.delivery is Each,
        t.input is Each,
        exists|k: int, g: u32|
            {
                let projs = world.infos[t.calc.0 as int].pred.delivery->Each_0@;
                let args = t.input->Each_0;
                let w = log[k];
                &&& 0 <= k < n
                &&& #[trigger] delivered(world, t.calc, g, t.sub, log[k])
                &&& args.len() == projs.len()
                &&& forall|j: int|
                    0 <= j < projs.len() ==> match #[trigger] projs[j] {
                        Proj::New(p) => args[j] == w.new.get_path(path_of(p@)),
                        Proj::Old(p) => args[j] == w.old.get_path(path_of(p@)),
                        Proj::WriterId => args[j] == Val::Ref(w.inst),
                        Proj::Own(f) => args[j] == world.store.value(t.sub, f),
                        Proj::Expr(e) => args[j] == expr_value(
                            e,
                            env_of(world.store, t.sub, w.new, w.old),
                        ),
                    }
            },
{
    law_triggers_come_of_writes(world, start, log, n, t);
    let (k, g) = choose|k: int, g: u32|
        0 <= k < n && #[trigger] delivered(world, t.calc, g, t.sub, log[k]) && t.input
            == InputModel::Each(
            crate::runtime::eval::projection(
                world.infos[t.calc.0 as int].pred.delivery->Each_0@,
                log[k].inst,
                env_of(world.store, t.sub, log[k].new, log[k].old),
            ),
        );
    assert(delivered(world, t.calc, g, t.sub, log[k]));
}

/// What a subscriber gets hit by hit: one trigger for each write that is delivered to it, in
/// order, whose items are what they ask for of that write.
pub proof fn law_items_hit_by_hit<F>(rt: Runtime<F>, c: CalcId, sub: InstanceId, i: int, j: int)
    requires
        rt.wf(),
        c.0 < rt.infos@.len(),
        rt.infos@[c.0 as int].n_groups == 1,
        rt.infos@[c.0 as int].pred.delivery is Each,
        0 <= i < received(rt.world(), c, sub, rt.next_log(), rt.next_log().len() as int).len(),
        0 <= j < rt.infos@[c.0 as int].pred.delivery->Each_0@.len(),
    ensures
        ({
            let ws = received(rt.world(), c, sub, rt.next_log(), rt.next_log().len() as int);
            let ts = trigs_for(
                frame_triggers(rt.next_routing(), rt.infos@, rt.determinism),
                c,
                sub,
            );
            let projs = rt.infos@[c.0 as int].pred.delivery->Each_0@;
            let args = ts[i].input->Each_0;
            let w = ws[i];
            &&& ts.len() == ws.len()
            &&& ts[i].calc == c
            &&& ts[i].sub == sub
            &&& ts[i].input is Each
            &&& args.len() == projs.len()
            &&& match projs[j] {
                Proj::New(p) => args[j] == w.new.get_path(path_of(p@)),
                Proj::Old(p) => args[j] == w.old.get_path(path_of(p@)),
                Proj::WriterId => args[j] == Val::Ref(w.inst),
                Proj::Own(f) => args[j] == rt.store.value(sub, f),
                Proj::Expr(e) => args[j] == expr_value(e, env_of(rt.store, sub, w.new, w.old)),
            }
        }),
{
    law_triggers_are_what_is_owed(rt, c, sub);
}

/// A write's place in the canonical order, as one number: type, id, generation and field of
/// the cell that was written.
pub open spec fn order_number(w: WriteModel) -> int {
    ((w.inst.ty.0 * 0x1_0000_0000 + w.inst.id) * 0x1_0000_0000_0000_0000 + w.inst.generation)
        * 0x1_0000_0000 + w.field.0
}

/// The writes that rows in canonical order come of.
proof fn lemma_canonical_writes(info: CalcInfo, sub: InstanceId, store: Store, ws: Seq<WriteModel>) -> (
order: Seq<WriteModel>)
    ensures
        order.len() == ws.len(),
        order.to_multiset() == ws.to_multiset(),
        rows_of_writes(info, sub, store, order) == canonical(rows_of_writes(info, sub, store, ws)),
    decreases ws.len(),
{
    let rows = rows_of_writes(info, sub, store, ws);
    if ws.len() == 0 {
        assert(rows_of_writes(info, sub, store, ws) =~= canonical(rows));
        ws
    } else {
        let r = ws.drop_last();
        let w = ws.last();
        let o = lemma_canonical_writes(info, sub, store, r);
        assert(rows.drop_last() =~= rows_of_writes(info, sub, store, r));
        let t = canonical(rows.drop_last());
        law_canonical_sorts(rows.drop_last());
        let k = place_of(t, rows.last());
        lemma_place_bound(t, rows.last());
        let order = o.insert(k, w);
        assert(rows_of_writes(info, sub, store, order) =~= t.insert(k, rows.last()));
        vstd::seq_lib::to_multiset_insert(o, k, w);
        vstd::seq_lib::to_multiset_build(r, w);
        assert(r.push(w) =~= ws);
        order
    }
}

proof fn lemma_place_bound(s: Seq<RowModel>, x: RowModel)
    ensures
        0 <= place_of(s, x) <= s.len(),
    decreases s.len(),
{
    if s.len() > 0 {
        lemma_place_bound(s.drop_last(), x);
    }
}

/// What a subscriber gets in a batch: one trigger with one row for each write that is
/// delivered to it, each row with what its items ask for of its write. The rows come in the
/// order of the writes, or, in canonical order, by the cells that were written. Without a
/// write there is no trigger.
pub proof fn law_items_in_batches<F>(rt: Runtime<F>, c: CalcId, sub: InstanceId)
    requires
        rt.wf(),
        c.0 < rt.infos@.len(),
        rt.infos@[c.0 as int].n_groups == 1,
        rt.infos@[c.0 as int].pred.delivery is Batch,
    ensures
        ({
            let ws = received(rt.world(), c, sub, rt.next_log(), rt.next_log().len() as int);
            let ts = trigs_for(
                frame_triggers(rt.next_routing(), rt.infos@, rt.determinism),
                c,
                sub,
            );
            let projs = rt.infos@[c.0 as int].pred.delivery->Batch_0@;
            let rows = ts[0].input->Batch_0;
            &&& ws.len() == 0 ==> ts.len() == 0
            &&& ws.len() > 0 ==> {
                &&& ts.len() == 1
                &&& ts[0].calc == c
                &&& ts[0].sub == sub
                &&& ts[0].input is Batch
                &&& rows.len() == ws.len()
                &&& exists|order: Seq<WriteModel>|
                    {
                        &&& #[trigger] order.to_multiset() == ws.to_multiset()
                        &&& order.len() == ws.len()
                        &&& rt.determinism == Determinism::Free ==> order == ws
                        &&& rt.determinism == Determinism::Canonical ==> forall|x: int, y: int|
                            0 <= x < y < order.len() ==> order_number(#[trigger] order[x])
                                <= order_number(#[trigger] order[y])
                        &&& forall|x: int, j: int|
                            #![trigger order[x], projs[j]]
                            0 <= x < order.len() && 0 <= j < projs.len() ==> {
                                let w = order[x];
                                &&& rows[x].len() == projs.len()
                                &&& match projs[j] {
                                    Proj::New(p) => rows[x][j] == w.new.get_path(path_of(p@)),
                                    Proj::Old(p) => rows[x][j] == w.old.get_path(path_of(p@)),
                                    Proj::WriterId => rows[x][j] == Val::Ref(w.inst),
                                    Proj::Own(f) => rows[x][j] == rt.store.value(sub, f),
                                    Proj::Expr(e) => rows[x][j] == expr_value(
                                        e,
                                        env_of(rt.store, sub, w.new, w.old),
                                    ),
                                }
                            }
                    }
            }
        }),
{
    law_triggers_are_what_is_owed(rt, c, sub);
    let ws = received(rt.world(), c, sub, rt.next_log(), rt.next_log().len() as int);
    let info = rt.infos@[c.0 as int];
    let all = rows_of_writes(info, sub, rt.store, ws);
    if ws.len() > 0 {
        let order = if rt.determinism == Determinism::Canonical {
            lemma_canonical_writes(info, sub, rt.store, ws)
        } else {
            ws
        };
        let sorted = rows_of_writes(info, sub, rt.store, order);
        if rt.determinism == Determinism::Canonical {
            law_canonical_sorts(all);
            assert forall|x: int, y: int| 0 <= x < y < order.len() implies order_number(
                #[trigger] order[x],
            ) <= order_number(#[trigger] order[y]) by {
                assert(crate::runtime::route::key_le(sorted[x].key, sorted[y].key));
                lemma_order_number(order[x], order[y]);
            }
        }
        assert(order.to_multiset() == ws.to_multiset());
    }
}

proof fn lemma_order_number(a: WriteModel, b: WriteModel)
    requires
        crate::runtime::route::key_le(batch_key(a), batch_key(b)),
    ensures
        order_number(a) <= order_number(b),
{
}

/// A calculation that runs always gets the number of the frame as the new value and the one
/// before it as the old, and the clock as the writer.
pub proof fn law_items_of_every_frame(
    store: Store,
    infos: Seq<CalcInfo>,
    ecs: Seq<CalcId>,
    writer: InstanceId,
    frame: u64,
    n: int,
    i: int,
    j: int,
)
    requires
        0 <= n <= ecs.len(),
        1 <= frame <= i64::MAX,
        0 <= i < ecs_trigs(store, infos, ecs, writer, frame, n).len(),
        ({
            let t = ecs_trigs(store, infos, ecs, writer, frame, n)[i];
            0 <= j < infos[t.calc.0 as int].pred.delivery->Each_0@.len()
        }),
    ensures
        ({
            let t = ecs_trigs(store, infos, ecs, writer, frame, n)[i];
            let info = infos[t.calc.0 as int];
            let args = t.input->Each_0;
            let new = Val::Int(frame as i64);
            let old = Val::Int((frame - 1) as i64);
            &&& ecs.contains(t.calc)
            &&& store.instances(info.ty).contains(t.sub)
            &&& t.input is Each
            &&& args.len() == info.pred.delivery->Each_0@.len()
            &&& match info.pred.delivery->Each_0@[j] {
                Proj::New(p) => args[j] == new.get_path(path_of(p@)),
                Proj::Old(p) => args[j] == old.get_path(path_of(p@)),
                Proj::WriterId => args[j] == Val::Ref(writer),
                Proj::Own(f) => args[j] == store.value(t.sub, f),
                Proj::Expr(e) => args[j] == expr_value(e, env_of(store, t.sub, new, old)),
            }
        }),
    decreases n,
{
    if n > 0 {
        let before = ecs_trigs(store, infos, ecs, writer, frame, n - 1);
        let all = ecs_trigs(store, infos, ecs, writer, frame, n);
        if i < before.len() {
            assert(all[i] == before[i]);
            law_items_of_every_frame(store, infos, ecs, writer, frame, n - 1, i, j);
        } else {
            assert(ecs[n - 1] == all[i].calc);
        }
    }
}

}
