//! What routing comes to: a calculation is delivered to exactly when something that it watches
//! is written and its condition holds.
use crate::calculation::CalcId;
use crate::calculation::InputModel;
use crate::entity::EntityTypeId;
use crate::entity::FieldId;
use crate::entity::InstanceId;
use crate::predicate::holds;
use crate::predicate::Delivery;
use crate::runtime::bindings::covered_at;
use crate::runtime::bindings::runs_always;
use crate::runtime::bindings::subscribes;
use crate::runtime::bindings::watched_groups;
use crate::runtime::engine::Runtime;
use crate::runtime::eval::env_of;
use crate::runtime::eval::projection;
use crate::runtime::index::Hit;
use crate::runtime::indexes::cell_key;
use crate::runtime::indexes::lemma_cell_key;
use crate::runtime::indexes::with_sub;
use crate::runtime::indexes::Indexes;
use crate::runtime::lifecycle::WriteModel;
use crate::runtime::refs::is_ref;
use crate::runtime::refs::Edge;
use crate::runtime::registry::hits_at;
use crate::runtime::route::batch_at;
use crate::runtime::route::batch_key;
use crate::runtime::route::deliver_now;
use crate::runtime::route::deliver_step;
use crate::runtime::route::BatchModel;
use crate::runtime::route::Frame;
use crate::runtime::route::RowModel;
use crate::runtime::route::Trig;
use crate::runtime::routing::deliver_many;
use crate::runtime::routing::route_hits;
use crate::runtime::routing::route_log;
use crate::runtime::routing::targets_of;
use crate::runtime::routing::wakes;
use crate::runtime::routing::woken;
use crate::runtime::routing::World;
use crate::runtime::scope::Atom;
use crate::runtime::store::law_instances_are_the_alive_ones;
use crate::runtime::store::Store;
use crate::runtime::CalcInfo;
use crate::value::Val;
use vstd::prelude::*;

verus! {

/// The write is to what the atom names, seen from a subscriber.
pub open spec fn atom_sees(store: Store, a: Atom, sub: InstanceId, w: WriteModel) -> bool {
    match a {
        Atom::Own(f) => sub == w.inst && f == w.field,
        Atom::Inst { ref_field, field } => {
            &&& field == w.field
            &&& store.is_alive(sub)
            &&& is_ref(store, sub.ty, ref_field)
            &&& store.value(sub, ref_field) == Val::Ref(w.inst)
        },
        Atom::Type(t, f) => w.inst.ty == t && w.field == f,
    }
}

/// Group `g` of the calculation watches what is written.
pub open spec fn group_sees(world: World, c: CalcId, g: u32, sub: InstanceId, w: WriteModel) -> bool {
    exists|a: Atom| #[trigger]
        subscribes(world.infos, c, g, a) && atom_sees(world.store, a, sub, w)
}

/// The write is delivered to the subscriber, for group `g` of the calculation.
pub open spec fn delivered(world: World, c: CalcId, g: u32, sub: InstanceId, w: WriteModel) -> bool {
    exists|h: Hit| #[trigger]
        world.idx.hits_of(world.refs, w, world.tys).contains(h) && h.calc == c && h.group == g
            && targets_of(world, h, w).contains(sub)
}

pub proof fn lemma_woken(
    world: World,
    c: CalcId,
    subs: Seq<InstanceId>,
    w: WriteModel,
    n: int,
    sub: InstanceId,
)
    requires
        0 <= n <= subs.len(),
    ensures
        woken(world, c, subs, w, n).contains(sub) <==> subs.take(n).contains(sub) && wakes(
            world,
            c,
            sub,
            w,
        ),
    decreases n,
{
    if n > 0 {
        lemma_woken(world, c, subs, w, n - 1, sub);
        let a = woken(world, c, subs, w, n - 1);
        let b = woken(world, c, subs, w, n);
        let s = subs.take(n - 1);
        let t = subs.take(n);
        assert(t =~= s.push(subs[n - 1]));
        assert(t.contains(sub) <==> s.contains(sub) || sub == subs[n - 1]) by {
            if s.contains(sub) {
                let k = choose|k: int| 0 <= k < s.len() && s[k] == sub;
                assert(t[k] == sub);
            }
            assert(t[n - 1] == subs[n - 1]);
        }
        if wakes(world, c, subs[n - 1], w) {
            if a.contains(sub) {
                let k = choose|k: int| 0 <= k < a.len() && a[k] == sub;
                assert(b[k] == sub);
            }
            assert(b[a.len() as int] == subs[n - 1]);
        }
    }
}

pub proof fn lemma_targets(world: World, h: Hit, w: WriteModel, sub: InstanceId)
    requires
        world.store.wf(),
        h.calc.0 < world.infos.len(),
    ensures
        targets_of(world, h, w).contains(sub) <==> world.store.is_alive(sub) && wakes(
            world,
            h.calc,
            sub,
            w,
        ) && match h.sub {
            Some(s) => s == sub,
            None => sub.ty == world.infos[h.calc.0 as int].ty,
        },
{
    match h.sub {
        Some(s) => {
            if world.store.is_alive(s) && wakes(world, h.calc, s, w) {
                assert(seq![s][0] == s);
            }
        },
        None => {
            let ty = world.infos[h.calc.0 as int].ty;
            let all = world.store.instances(ty);
            lemma_woken(world, h.calc, all, w, all.len() as int, sub);
            assert(all.take(all.len() as int) =~= all);
            law_instances_are_the_alive_ones(world.store, ty);
        },
    }
}

proof fn lemma_concat3(a: Seq<Hit>, b: Seq<Hit>, c: Seq<Hit>, h: Hit)
    ensures
        (a + b + c).contains(h) <==> a.contains(h) || b.contains(h) || c.contains(h),
{
    let s = a + b + c;
    if a.contains(h) {
        let k = choose|k: int| 0 <= k < a.len() && a[k] == h;
        assert(s[k] == h);
    }
    if b.contains(h) {
        let k = choose|k: int| 0 <= k < b.len() && b[k] == h;
        assert(s[a.len() + k] == h);
    }
    if c.contains(h) {
        let k = choose|k: int| 0 <= k < c.len() && c[k] == h;
        assert(s[a.len() + b.len() + k] == h);
    }
    if s.contains(h) {
        let k = choose|k: int| 0 <= k < s.len() && s[k] == h;
        if k < a.len() {
            assert(a[k] == h);
        } else if k < a.len() + b.len() {
            assert(b[k - a.len()] == h);
        } else {
            assert(c[k - a.len() - b.len()] == h);
        }
    }
}

proof fn lemma_with_sub(subs: Seq<(CalcId, u32)>, sub: InstanceId, h: Hit)
    ensures
        with_sub(subs, sub).contains(h) <==> h.sub == Some(sub) && subs.contains((h.calc, h.group)),
{
    let s = with_sub(subs, sub);
    if s.contains(h) {
        let k = choose|k: int| 0 <= k < s.len() && s[k] == h;
        assert(subs[k] == (h.calc, h.group));
    }
    if h.sub == Some(sub) && subs.contains((h.calc, h.group)) {
        let k = choose|k: int| 0 <= k < subs.len() && subs[k] == (h.calc, h.group);
        assert(s[k] == h);
    }
}

proof fn lemma_inst_hits(
    idx: Indexes,
    holders: Seq<(InstanceId, FieldId)>,
    field: FieldId,
    n: int,
    h: Hit,
)
    requires
        0 <= n <= holders.len(),
    ensures
        idx.inst_hits(holders, field, n).contains(h) <==> exists|k: int|
            0 <= k < n && h.sub == Some((#[trigger] holders[k]).0) && idx.inst_subs(
                holders[k].0.ty,
                holders[k].1,
                field,
            ).contains((h.calc, h.group)),
    decreases n,
{
    if n > 0 {
        lemma_inst_hits(idx, holders, field, n - 1, h);
        let p = holders[n - 1];
        let a = idx.inst_hits(holders, field, n - 1);
        let b = with_sub(idx.inst_subs(p.0.ty, p.1, field), p.0);
        lemma_with_sub(idx.inst_subs(p.0.ty, p.1, field), p.0, h);
        lemma_concat3(a, b, Seq::empty(), h);
        assert(a + b + Seq::<Hit>::empty() =~= a + b);
        if b.contains(h) {
            assert(h.sub == Some(holders[n - 1].0));
        }
    }
}

/// A calculation that does not run always is delivered to exactly when, for one of its
/// groups, what the group watches is written, its condition holds of the write, and the
/// subscriber is an instance of its type that is alive. The indexes change nothing in this:
/// they miss no write, and every hit is put to the condition.
pub proof fn law_routing_is_exact<F>(rt: Runtime<F>, c: CalcId, g: u32, sub: InstanceId, w: WriteModel)
    requires
        rt.wf(),
        c.0 < rt.infos@.len(),
        !runs_always(rt.infos@[c.0 as int], rt.clock.ty, rt.clock.f_frame),
    ensures
        delivered(rt.world(), c, g, sub, w) <==> {
            &&& rt.store.is_alive(sub)
            &&& sub.ty == rt.infos@[c.0 as int].ty
            &&& group_sees(rt.world(), c, g, sub, w)
            &&& holds(
                rt.infos@[c.0 as int].pred.cond,
                env_of(rt.store, sub, w.new, w.old),
            )
        },
{
    let world = rt.world();
    let idx = world.idx;
    let info = rt.infos@[c.0 as int];
    let own = with_sub(idx.own_subs(w.inst.ty, w.field), w.inst);
    let typed = idx.type_hits(w.inst.ty, w.field, w.new, w.old, world.tys);
    let holders = world.refs.holders_of(w.inst);
    let inst = idx.inst_hits(holders, w.field, holders.len() as int);
    let k = cell_key(w.inst.ty, w.field);
    assert(rt.tys@[c.0 as int] == info.ty);
    if delivered(world, c, g, sub, w) {
        let h = choose|h: Hit| #[trigger]
            idx.hits_of(world.refs, w, world.tys).contains(h) && h.calc == c && h.group == g
                && targets_of(world, h, w).contains(sub);
        lemma_targets(world, h, w, sub);
        lemma_concat3(own, typed, inst, h);
        if own.contains(h) {
            lemma_with_sub(idx.own_subs(w.inst.ty, w.field), w.inst, h);
            assert(idx.own_subs(w.inst.ty, w.field).contains((c, g)));
            assert(subscribes(world.infos, c, g, Atom::Own(w.field)));
        } else if typed.contains(h) {
            assert(hits_at(idx, k, w.new, w.old, world.tys, h));
            let (t, f) = choose|t: EntityTypeId, f: FieldId| #[trigger]
                watched_groups(info)[g as int].contains(Atom::Type(t, f)) && k == cell_key(t, f);
            lemma_cell_key(w.inst.ty, w.field, t, f);
            assert(subscribes(world.infos, c, g, Atom::Type(t, f)));
            if h.sub is Some {
                idx.type_@[k].lemma_hit_types(w.new, w.old, world.tys, h);
            }
        } else {
            lemma_inst_hits(idx, holders, w.field, holders.len() as int, h);
            let x = choose|x: int|
                0 <= x < holders.len() && h.sub == Some((#[trigger] holders[x]).0)
                    && idx.inst_subs(holders[x].0.ty, holders[x].1, w.field).contains(
                    (h.calc, h.group),
                );
            let (holder, rf) = holders[x];
            assert(idx.inst_subs(holder.ty, rf, w.field).contains((c, g)));
            let a = Atom::Inst { ref_field: rf, field: w.field };
            assert(subscribes(world.infos, c, g, a));
            let e = Edge { target: w.inst, holder, field: rf };
            assert(holders.contains((holder, rf)));
            assert(world.refs.has(e));
            assert(atom_sees(rt.store, a, sub, w));
        }
    }
    if rt.store.is_alive(sub) && sub.ty == info.ty && group_sees(world, c, g, sub, w) && holds(
        info.pred.cond,
        env_of(rt.store, sub, w.new, w.old),
    ) {
        let a = choose|a: Atom| #[trigger]
            subscribes(world.infos, c, g, a) && atom_sees(world.store, a, sub, w);
        assert(wakes(world, c, sub, w));
        match a {
            Atom::Own(f) => {
                let h = Hit { calc: c, group: g, sub: Some(sub) };
                assert(idx.own_subs(w.inst.ty, w.field).contains((c, g)));
                lemma_with_sub(idx.own_subs(w.inst.ty, w.field), w.inst, h);
                lemma_concat3(own, typed, inst, h);
                lemma_targets(world, h, w, sub);
            },
            Atom::Type(t, f) => {
                let env = env_of(rt.store, sub, w.new, w.old);
                let h1 = Hit { calc: c, group: g, sub: None };
                let h2 = Hit { calc: c, group: g, sub: Some(sub) };
                assert(covered_at(idx, k, info.pred.cond, c, g));
                assert(holds(info.pred.cond, env) && world.tys[c.0 as int] == env.sub.ty);
                let h = if hits_at(idx, k, env.new, env.old, world.tys, h1) {
                    h1
                } else {
                    h2
                };
                assert(hits_at(idx, k, w.new, w.old, world.tys, h));
                lemma_concat3(own, typed, inst, h);
                lemma_targets(world, h, w, sub);
            },
            Atom::Inst { ref_field, field } => {
                let h = Hit { calc: c, group: g, sub: Some(sub) };
                let e = Edge { target: w.inst, holder: sub, field: ref_field };
                assert(world.refs.has(e));
                assert(holders.contains((sub, ref_field)));
                let x = choose|x: int| 0 <= x < holders.len() && holders[x] == (sub, ref_field);
                assert(idx.inst_subs(sub.ty, ref_field, field).contains((c, g)));
                assert(h.sub == Some(holders[x].0));
                lemma_inst_hits(idx, holders, w.field, holders.len() as int, h);
                lemma_concat3(own, typed, inst, h);
                lemma_targets(world, h, w, sub);
            },
        }
    }
}

/// The batch of the subscriber has the row.
pub open spec fn has_row(
    bs: Seq<BatchModel>,
    c: CalcId,
    sub: InstanceId,
    row: RowModel,
) -> bool {
    exists|b: int|
        0 <= b < bs.len() && (#[trigger] bs[b]).calc == c && bs[b].sub == sub
            && bs[b].rows.contains(row)
}

/// The write has arrived at the subscriber, in the form that the calculation asks for.
pub open spec fn arrived(
    f: Frame,
    info: CalcInfo,
    c: CalcId,
    sub: InstanceId,
    w: WriteModel,
    store: Store,
) -> bool {
    let env = env_of(store, sub, w.new, w.old);
    match info.pred.delivery {
        Delivery::Each(projs) => f.triggers.contains(
            Trig { calc: c, sub, input: InputModel::Each(projection(projs@, w.inst, env)) },
        ),
        Delivery::Batch(projs) => has_row(
            f.batches,
            c,
            sub,
            RowModel { key: batch_key(w), row: projection(projs@, w.inst, env) },
        ),
        Delivery::Fold(_) => f.fold_hits.contains((c, sub)),
    }
}

proof fn lemma_arrived_kept(
    after: Frame,
    before: Frame,
    info: CalcInfo,
    c: CalcId,
    sub: InstanceId,
    w: WriteModel,
    store: Store,
)
    requires
        keeps(after, before),
        arrived(before, info, c, sub, w, store),
    ensures
        arrived(after, info, c, sub, w, store),
{
}

/// Nothing that was collected is lost.
pub open spec fn keeps(after: Frame, before: Frame) -> bool {
    &&& forall|t: Trig| #[trigger] before.triggers.contains(t) ==> after.triggers.contains(t)
    &&& forall|c: CalcId, sub: InstanceId, row: RowModel| #[trigger]
        has_row(before.batches, c, sub, row) ==> has_row(after.batches, c, sub, row)
    &&& forall|x: (CalcId, InstanceId)| #[trigger]
        before.fold_hits.contains(x) ==> after.fold_hits.contains(x)
}

proof fn lemma_push_contains<T>(s: Seq<T>, x: T)
    ensures
        forall|y: T| #[trigger] s.push(x).contains(y) <==> s.contains(y) || y == x,
{
    assert forall|y: T| #[trigger] s.push(x).contains(y) <==> s.contains(y) || y == x by {
        let p = s.push(x);
        if s.contains(y) {
            let k = choose|k: int| 0 <= k < s.len() && s[k] == y;
            assert(p[k] == y);
        }
        assert(p[s.len() as int] == x);
        if p.contains(y) {
            let k = choose|k: int| 0 <= k < p.len() && p[k] == y;
            if k < s.len() {
                assert(s[k] == y);
            }
        }
    }
}

/// What a delivery adds.
proof fn lemma_deliver_now(
    f: Frame,
    info: CalcInfo,
    c: CalcId,
    sub: InstanceId,
    w: WriteModel,
    store: Store,
)
    ensures
        ({
            let after = deliver_now(f, info, c, sub, w, store);
            let env = env_of(store, sub, w.new, w.old);
            &&& keeps(after, f)
            &&& arrived(after, info, c, sub, w, store)
            &&& forall|t: Trig| #[trigger]
                after.triggers.contains(t) ==> f.triggers.contains(t) || (t.calc == c && t.sub == sub
                    && info.pred.delivery is Each && t.input == InputModel::Each(
                    projection(info.pred.delivery->Each_0@, w.inst, env),
                ))
            &&& forall|x: CalcId, s: InstanceId, row: RowModel| #[trigger]
                has_row(after.batches, x, s, row) ==> has_row(f.batches, x, s, row) || (x == c && s == sub
                    && info.pred.delivery is Batch && row == (RowModel {
                    key: batch_key(w),
                    row: projection(info.pred.delivery->Batch_0@, w.inst, env),
                }))
        }),
{
    let after = deliver_now(f, info, c, sub, w, store);
    let env = env_of(store, sub, w.new, w.old);
    match info.pred.delivery {
        Delivery::Each(projs) => {
            let t = Trig { calc: c, sub, input: InputModel::Each(projection(projs@, w.inst, env)) };
            lemma_push_contains(f.triggers, t);
        },
        Delivery::Batch(projs) => {
            let row = RowModel { key: batch_key(w), row: projection(projs@, w.inst, env) };
            let i = batch_at(f.batches, c, sub);
            crate::runtime::route::lemma_batch_found(f.batches, c, sub);
            if i < f.batches.len() {
                lemma_push_contains(f.batches[i].rows, row);
                assert(after.batches[i].rows.contains(row));
            } else {
                assert(seq![row][0] == row);
                assert(after.batches[i].rows.contains(row));
            }
            assert forall|x: CalcId, s: InstanceId, r: RowModel| #[trigger]
                has_row(f.batches, x, s, r) implies has_row(after.batches, x, s, r) by {
                let b = choose|b: int|
                    0 <= b < f.batches.len() && (#[trigger] f.batches[b]).calc == x
                        && f.batches[b].sub == s && f.batches[b].rows.contains(r);
                assert(after.batches[b].calc == x);
            }
            assert forall|x: CalcId, s: InstanceId, r: RowModel| #[trigger]
                has_row(after.batches, x, s, r) implies has_row(f.batches, x, s, r) || (x == c && s == sub && r
                == row) by {
                let b = choose|b: int|
                    0 <= b < after.batches.len() && (#[trigger] after.batches[b]).calc == x
                        && after.batches[b].sub == s && after.batches[b].rows.contains(r);
                if b < f.batches.len() {
                    assert(f.batches[b].calc == x && f.batches[b].sub == s);
                } else {
                    let k = choose|k: int| 0 <= k < seq![row].len() && seq![row][k] == r;
                }
            }
        },
        Delivery::Fold(_) => {
            lemma_push_contains(f.fold_hits, (c, sub));
        },
    }
}

/// What one step of routing adds.
proof fn lemma_deliver_step(
    f: Frame,
    info: CalcInfo,
    c: CalcId,
    g: u32,
    sub: InstanceId,
    w: WriteModel,
    store: Store,
)
    ensures
        ({
            let after = deliver_step(f, info, c, g, sub, w, store);
            let env = env_of(store, sub, w.new, w.old);
            &&& keeps(after, f)
            &&& info.n_groups <= 1 ==> arrived(after, info, c, sub, w, store)
            &&& forall|t: Trig| #[trigger]
                after.triggers.contains(t) ==> f.triggers.contains(t) || (t.calc == c && t.sub == sub
                    && info.pred.delivery is Each && t.input == InputModel::Each(
                    projection(info.pred.delivery->Each_0@, w.inst, env),
                ))
            &&& forall|x: CalcId, s: InstanceId, row: RowModel| #[trigger]
                has_row(after.batches, x, s, row) ==> has_row(f.batches, x, s, row) || (x == c && s == sub
                    && info.pred.delivery is Batch && row == (RowModel {
                    key: batch_key(w),
                    row: projection(info.pred.delivery->Batch_0@, w.inst, env),
                }))
        }),
{
    if info.n_groups > 1 {
        let (latches, fire) = crate::runtime::route::latch_step(
            f.latches,
            c,
            sub,
            info.n_groups,
            g,
        );
        let h = Frame { latches, ..f };
        lemma_deliver_now(h, info, c, sub, w, store);
    } else {
        lemma_deliver_now(f, info, c, sub, w, store);
    }
}

proof fn lemma_many_keeps(
    world: World,
    f: Frame,
    c: CalcId,
    g: u32,
    subs: Seq<InstanceId>,
    w: WriteModel,
    m: int,
    n: int,
)
    requires
        m <= n,
    ensures
        keeps(
            deliver_many(world, f, c, g, subs, w, n),
            deliver_many(world, f, c, g, subs, w, m),
        ),
    decreases n - m,
{
    if m < n && n > 0 {
        lemma_many_keeps(world, f, c, g, subs, w, m, n - 1);
        lemma_deliver_step(
            deliver_many(world, f, c, g, subs, w, n - 1),
            world.infos[c.0 as int],
            c,
            g,
            subs[n - 1],
            w,
            world.store,
        );
    }
}

proof fn lemma_hits_keeps(world: World, f: Frame, hits: Seq<Hit>, w: WriteModel, m: int, n: int)
    requires
        m <= n,
    ensures
        keeps(route_hits(world, f, hits, w, n), route_hits(world, f, hits, w, m)),
    decreases n - m,
{
    if m < n && n > 0 {
        lemma_hits_keeps(world, f, hits, w, m, n - 1);
        let h = hits[n - 1];
        let subs = targets_of(world, h, w);
        lemma_many_keeps(
            world,
            route_hits(world, f, hits, w, n - 1),
            h.calc,
            h.group,
            subs,
            w,
            0,
            subs.len() as int,
        );
    }
}

proof fn lemma_log_keeps(world: World, f: Frame, log: Seq<WriteModel>, m: int, n: int)
    requires
        m <= n,
    ensures
        keeps(route_log(world, f, log, n), route_log(world, f, log, m)),
    decreases n - m,
{
    if m < n && n > 0 {
        lemma_log_keeps(world, f, log, m, n - 1);
        let hits = world.idx.hits_of(world.refs, log[n - 1], world.tys);
        lemma_hits_keeps(
            world,
            route_log(world, f, log, n - 1),
            hits,
            log[n - 1],
            0,
            hits.len() as int,
        );
    }
}

/// What is delivered arrives: hit by hit as a trigger with the projection of the write, in a
/// batch as a row, and in an aggregate as an aggregate to hand over. This is of calculations
/// with one group; those with several wait for all of them.
pub proof fn law_what_is_delivered_arrives(
    world: World,
    start: Frame,
    log: Seq<WriteModel>,
    k: int,
    c: CalcId,
    sub: InstanceId,
)
    requires
        0 <= k < log.len(),
        c.0 < world.infos.len(),
        world.infos[c.0 as int].n_groups == 1,
        delivered(world, c, 0, sub, log[k]),
    ensures
        arrived(
            route_log(world, start, log, log.len() as int),
            world.infos[c.0 as int],
            c,
            sub,
            log[k],
            world.store,
        ),
{
    let w = log[k];
    let hits = world.idx.hits_of(world.refs, w, world.tys);
    let h = choose|h: Hit| #[trigger]
        hits.contains(h) && h.calc == c && h.group == 0 && targets_of(world, h, w).contains(sub);
    let i = choose|i: int| 0 <= i < hits.len() && hits[i] == h;
    let subs = targets_of(world, h, w);
    let j = choose|j: int| 0 <= j < subs.len() && subs[j] == sub;
    let f0 = route_log(world, start, log, k);
    let f1 = route_hits(world, f0, hits, w, i);
    let f2 = deliver_many(world, f1, c, 0, subs, w, j);
    let info = world.infos[c.0 as int];
    let f3 = deliver_many(world, f1, c, 0, subs, w, j + 1);
    let f4 = deliver_many(world, f1, c, 0, subs, w, subs.len() as int);
    let f5 = route_hits(world, f0, hits, w, hits.len() as int);
    let f6 = route_log(world, start, log, log.len() as int);
    lemma_deliver_step(f2, info, c, 0, sub, w, world.store);
    assert(arrived(f3, info, c, sub, w, world.store));
    lemma_many_keeps(world, f1, c, 0, subs, w, j + 1, subs.len() as int);
    lemma_arrived_kept(f4, f3, info, c, sub, w, world.store);
    assert(route_hits(world, f0, hits, w, i + 1) == f4);
    lemma_hits_keeps(world, f0, hits, w, i + 1, hits.len() as int);
    lemma_arrived_kept(f5, f4, info, c, sub, w, world.store);
    assert(route_log(world, start, log, k + 1) == f5);
    lemma_log_keeps(world, start, log, k + 1, log.len() as int);
    lemma_arrived_kept(f6, f5, info, c, sub, w, world.store);
}

proof fn lemma_many_sound(
    world: World,
    f: Frame,
    c: CalcId,
    g: u32,
    subs: Seq<InstanceId>,
    w: WriteModel,
    n: int,
    t: Trig,
)
    requires
        0 <= n <= subs.len(),
        deliver_many(world, f, c, g, subs, w, n).triggers.contains(t),
    ensures
        f.triggers.contains(t) || (t.calc == c && subs.contains(t.sub)
            && world.infos[c.0 as int].pred.delivery is Each && t.input == InputModel::Each(
            projection(
                world.infos[c.0 as int].pred.delivery->Each_0@,
                w.inst,
                env_of(world.store, t.sub, w.new, w.old),
            ),
        )),
    decreases n,
{
    if n > 0 {
        let before = deliver_many(world, f, c, g, subs, w, n - 1);
        lemma_deliver_step(before, world.infos[c.0 as int], c, g, subs[n - 1], w, world.store);
        if before.triggers.contains(t) {
            lemma_many_sound(world, f, c, g, subs, w, n - 1, t);
        }
    }
}

proof fn lemma_hits_sound(
    world: World,
    f: Frame,
    w: WriteModel,
    n: int,
    t: Trig,
)
    requires
        ({
            let hits = world.idx.hits_of(world.refs, w, world.tys);
            0 <= n <= hits.len() && route_hits(world, f, hits, w, n).triggers.contains(t)
        }),
    ensures
        f.triggers.contains(t) || (world.infos[t.calc.0 as int].pred.delivery is Each && t.input
            == InputModel::Each(
            projection(
                world.infos[t.calc.0 as int].pred.delivery->Each_0@,
                w.inst,
                env_of(world.store, t.sub, w.new, w.old),
            ),
        ) && exists|g: u32| #[trigger] delivered(world, t.calc, g, t.sub, w)),
    decreases n,
{
    let hits = world.idx.hits_of(world.refs, w, world.tys);
    if n > 0 {
        let h = hits[n - 1];
        let subs = targets_of(world, h, w);
        let before = route_hits(world, f, hits, w, n - 1);
        lemma_many_sound(world, before, h.calc, h.group, subs, w, subs.len() as int, t);
        if before.triggers.contains(t) {
            lemma_hits_sound(world, f, w, n - 1, t);
        } else {
            assert(hits.contains(h));
            assert(delivered(world, t.calc, h.group, t.sub, w));
        }
    }
}

/// What arrives hit by hit was delivered: every trigger comes of a write of the log that is
/// delivered to its subscriber, and carries the projection of that write.
pub proof fn law_triggers_come_of_writes(
    world: World,
    start: Frame,
    log: Seq<WriteModel>,
    n: int,
    t: Trig,
)
    requires
        0 <= n <= log.len(),
        start.triggers.len() == 0,
        route_log(world, start, log, n).triggers.contains(t),
    ensures
        world.infos[t.calc.0 as int].pred.delivery is Each,
        exists|k: int, g: u32|
            0 <= k < n && #[trigger] delivered(world, t.calc, g, t.sub, log[k]) && t.input
                == InputModel::Each(
                projection(
                    world.infos[t.calc.0 as int].pred.delivery->Each_0@,
                    log[k].inst,
                    env_of(world.store, t.sub, log[k].new, log[k].old),
                ),
            ),
    decreases n,
{
    if n > 0 {
        let w = log[n - 1];
        let hits = world.idx.hits_of(world.refs, w, world.tys);
        let before = route_log(world, start, log, n - 1);
        lemma_hits_sound(world, before, w, hits.len() as int, t);
        if before.triggers.contains(t) {
            law_triggers_come_of_writes(world, start, log, n - 1, t);
        } else {
            let g = choose|g: u32| #[trigger] delivered(world, t.calc, g, t.sub, w);
            assert(delivered(world, t.calc, g, t.sub, log[n - 1]));
        }
    }
}

/// A field other than `_alive` has one writer: two calculations of a type that declare it
/// are the same.
pub proof fn law_one_writer_per_field<F>(rt: Runtime<F>, a: int, b: int, f: FieldId)
    requires
        rt.wf(),
        0 <= a < rt.infos@.len(),
        0 <= b < rt.infos@.len(),
        rt.infos@[a].ty == rt.infos@[b].ty,
        f.0 != crate::entity::FIELD_ALIVE,
        rt.infos@[a].declared_writes@.contains(f),
        rt.infos@[b].declared_writes@.contains(f),
    ensures
        a == b,
{
    let x = choose|x: int|
        0 <= x < rt.infos@[a].declared_writes@.len() && rt.infos@[a].declared_writes@[x] == f;
    let y = choose|y: int|
        0 <= y < rt.infos@[b].declared_writes@.len() && rt.infos@[b].declared_writes@[y] == f;
    let k = cell_key(rt.infos@[a].ty, f);
    assert(rt.infos@[a].declared_writes@[x] == f);
    assert(rt.infos@[b].declared_writes@[y] == f);
    assert(rt.owners@[k] == CalcId(a as u32));
    assert(rt.owners@[k] == CalcId(b as u32));
}

}
