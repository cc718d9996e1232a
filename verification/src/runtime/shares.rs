//! What a subscriber gets of a frame: the writes that are delivered to it, in the form that its
//! calculation asks for, and nothing else. This is of calculations with one group; those with
//! several wait for all of them.
use crate::calculation::CalcId;
use crate::calculation::InputModel;
use crate::entity::CellAddr;
use crate::entity::InstanceId;
use crate::predicate::holds;
use crate::predicate::Delivery;
use crate::predicate::FoldOp;
use crate::runtime::bindings::runs_always;
use crate::runtime::bindings::watched_groups;
use crate::runtime::deliveries::deliveries;
use crate::runtime::deliveries::deliveries_upto;
use crate::runtime::deliveries::delivers;
use crate::runtime::deliveries::law_one_delivery_per_atom;
use crate::runtime::deliveries::seen_by;
use crate::runtime::engine::Runtime;
use crate::runtime::eval::env_of;
use crate::runtime::eval::projection;
use crate::runtime::fold::fold_result;
use crate::runtime::fold::fold_start;
use crate::runtime::fold::fold_step;
use crate::runtime::fold::FoldModel;
use crate::runtime::index::Hit;
use crate::runtime::laws::atom_sees;
use crate::runtime::laws::lemma_woken;
use crate::runtime::lifecycle::WriteModel;
use crate::runtime::route::batch_at;
use crate::runtime::route::batch_key;
use crate::runtime::route::deliver_now;
use crate::runtime::route::fold_at;
use crate::runtime::route::folds_of;
use crate::runtime::route::lemma_batch_at;
use crate::runtime::route::lemma_fold_at;
use crate::runtime::route::lemma_fold_found;
use crate::runtime::route::BatchModel;
use crate::runtime::route::FoldEntryModel;
use crate::runtime::route::Frame;
use crate::runtime::route::RowModel;
use crate::runtime::route::Trig;
use crate::runtime::routing::batch_trig;
use crate::runtime::routing::deliver_many;
use crate::runtime::routing::dirty_hits;
use crate::runtime::routing::fold_trig;
use crate::runtime::routing::frame_triggers;
use crate::runtime::routing::hit_ok;
use crate::runtime::routing::lemma_hits_ok;
use crate::runtime::routing::route_hits;
use crate::runtime::routing::route_log;
use crate::runtime::routing::start_frame;
use crate::runtime::routing::targets_of;
use crate::runtime::routing::woken;
use crate::runtime::routing::World;
use crate::runtime::schedule::by_calc;
use crate::runtime::schedule::ecs_trigs;
use crate::runtime::schedule::of_calc;
use crate::runtime::scope::Atom;
use crate::runtime::store::law_instances_are_the_alive_ones;
use crate::runtime::store::Store;
use crate::runtime::CalcInfo;
use crate::runtime::Determinism;
use vstd::prelude::*;

verus! {

/// The triggers of one subscriber of a calculation, in order.
pub open spec fn trigs_for(ts: Seq<Trig>, c: CalcId, sub: InstanceId) -> Seq<Trig>
    decreases ts.len(),
{
    if ts.len() == 0 {
        Seq::empty()
    } else {
        let r = trigs_for(ts.drop_last(), c, sub);
        if ts.last().calc == c && ts.last().sub == sub {
            r.push(ts.last())
        } else {
            r
        }
    }
}

/// What a frame has collected for one subscriber of a calculation.
pub ghost struct Share {
    pub triggers: Seq<Trig>,
    pub rows: Seq<RowModel>,
    pub acc: Option<FoldModel>,
    /// The aggregate is to be delivered.
    pub due: bool,
}

pub open spec fn rows_at(bs: Seq<BatchModel>, c: CalcId, sub: InstanceId) -> Seq<RowModel> {
    let i = batch_at(bs, c, sub);
    if i < bs.len() {
        bs[i].rows
    } else {
        Seq::empty()
    }
}

pub open spec fn acc_at(fs: Seq<FoldEntryModel>, c: CalcId, sub: InstanceId) -> Option<FoldModel> {
    let i = fold_at(fs, c, sub);
    if i < fs.len() {
        Some(fs[i].acc)
    } else {
        None
    }
}

pub open spec fn share(f: Frame, c: CalcId, sub: InstanceId) -> Share {
    Share {
        triggers: trigs_for(f.triggers, c, sub),
        rows: rows_at(f.batches, c, sub),
        acc: acc_at(f.folds, c, sub),
        due: f.fold_hits.contains((c, sub)),
    }
}

/// The row of a write in a batch.
pub open spec fn row_of(info: CalcInfo, sub: InstanceId, store: Store, w: WriteModel) -> RowModel {
    RowModel {
        key: batch_key(w),
        row: projection(
            info.pred.delivery->Batch_0@,
            w.inst,
            env_of(store, sub, w.new, w.old),
        ),
    }
}

/// The trigger of a write that is delivered on its own.
pub open spec fn each_of(
    info: CalcInfo,
    c: CalcId,
    sub: InstanceId,
    store: Store,
    w: WriteModel,
) -> Trig {
    Trig {
        calc: c,
        sub,
        input: InputModel::Each(
            projection(
                info.pred.delivery->Each_0@,
                w.inst,
                env_of(store, sub, w.new, w.old),
            ),
        ),
    }
}

/// An aggregate takes in a write.
pub open spec fn folded(op: FoldOp, acc: Option<FoldModel>, w: WriteModel) -> FoldModel {
    fold_step(
        op,
        match acc {
            Some(a) => a,
            None => fold_start(op),
        },
        CellAddr { inst: w.inst, field: w.field },
        w.old,
        w.new,
    )
}

/// One write more.
pub open spec fn share_with(
    s: Share,
    info: CalcInfo,
    c: CalcId,
    sub: InstanceId,
    store: Store,
    w: WriteModel,
) -> Share {
    match info.pred.delivery {
        Delivery::Each(_) => Share {
            triggers: s.triggers.push(each_of(info, c, sub, store, w)),
            ..s
        },
        Delivery::Batch(_) => Share { rows: s.rows.push(row_of(info, sub, store, w)), ..s },
        Delivery::Fold(op) => Share { acc: Some(folded(op, s.acc, w)), due: true, ..s },
    }
}

/// Some writes more, in order.
pub open spec fn share_after(
    s: Share,
    info: CalcInfo,
    c: CalcId,
    sub: InstanceId,
    store: Store,
    ws: Seq<WriteModel>,
) -> Share
    decreases ws.len(),
{
    if ws.len() == 0 {
        s
    } else {
        share_with(
            share_after(s, info, c, sub, store, ws.drop_last()),
            info,
            c,
            sub,
            store,
            ws.last(),
        )
    }
}

/// The first `n` writes of a log as the subscriber gets them: each as often as it is
/// delivered.
pub open spec fn received(
    world: World,
    c: CalcId,
    sub: InstanceId,
    log: Seq<WriteModel>,
    n: int,
) -> Seq<WriteModel>
    decreases n,
{
    if n <= 0 {
        Seq::empty()
    } else {
        received(world, c, sub, log, n - 1) + Seq::new(
            deliveries(world, c, 0, sub, log[n - 1]),
            |i: int| log[n - 1],
        )
    }
}

proof fn lemma_trigs_push(ts: Seq<Trig>, t: Trig, c: CalcId, sub: InstanceId)
    ensures
        trigs_for(ts.push(t), c, sub) == (if t.calc == c && t.sub == sub {
            trigs_for(ts, c, sub).push(t)
        } else {
            trigs_for(ts, c, sub)
        }),
{
    assert(ts.push(t).drop_last() =~= ts);
}

proof fn lemma_batch_place(s: Seq<BatchModel>, c: CalcId, sub: InstanceId)
    ensures
        0 <= batch_at(s, c, sub) <= s.len(),
        batch_at(s, c, sub) < s.len() ==> s[batch_at(s, c, sub)].calc == c && s[batch_at(
            s,
            c,
            sub,
        )].sub == sub,
        forall|i: int|
            0 <= i < batch_at(s, c, sub) ==> !((#[trigger] s[i]).calc == c && s[i].sub == sub),
    decreases s.len(),
{
    if s.len() > 0 && !(s[0].calc == c && s[0].sub == sub) {
        let t = s.drop_first();
        lemma_batch_place(t, c, sub);
        assert forall|i: int| 0 <= i < batch_at(s, c, sub) implies !((#[trigger] s[i]).calc == c
            && s[i].sub == sub) by {
            if i > 0 {
                assert(t[i - 1] == s[i]);
            }
        }
    }
}

/// A delivery reaches the share of its subscriber, and no other.
proof fn lemma_deliver_share(
    f: Frame,
    info: CalcInfo,
    d: CalcId,
    other: InstanceId,
    w: WriteModel,
    store: Store,
    c: CalcId,
    sub: InstanceId,
)
    ensures
        share(deliver_now(f, info, d, other, w, store), c, sub) == (if d == c && other == sub {
            share_with(share(f, c, sub), info, c, sub, store, w)
        } else {
            share(f, c, sub)
        }),
{
    let after = deliver_now(f, info, d, other, w, store);
    let mine = d == c && other == sub;
    match info.pred.delivery {
        Delivery::Each(_) => {
            lemma_trigs_push(f.triggers, each_of(info, d, other, store, w), c, sub);
        },
        Delivery::Batch(_) => {
            let i = batch_at(f.batches, d, other);
            let k = batch_at(f.batches, c, sub);
            lemma_batch_place(f.batches, d, other);
            lemma_batch_place(f.batches, c, sub);
            let b = after.batches;
            let row = row_of(info, other, store, w);
            if k < f.batches.len() {
                assert forall|j: int| 0 <= j < k implies !((#[trigger] b[j]).calc == c && b[j].sub
                    == sub) by {
                    assert(!(f.batches[j].calc == c && f.batches[j].sub == sub));
                }
                assert(b[k].calc == c && b[k].sub == sub);
                lemma_batch_at(b, c, sub, k);
            } else {
                assert forall|j: int| 0 <= j < f.batches.len() implies !((#[trigger] b[j]).calc == c
                    && b[j].sub == sub) by {
                    assert(!(f.batches[j].calc == c && f.batches[j].sub == sub));
                }
                if mine {
                    lemma_batch_at(b, c, sub, k);
                    assert(seq![row] =~= Seq::<RowModel>::empty().push(row));
                } else {
                    lemma_batch_at(b, c, sub, b.len() as int);
                }
            }
        },
        Delivery::Fold(op) => {
            let i = fold_at(f.folds, d, other);
            let k = fold_at(f.folds, c, sub);
            lemma_fold_found(f.folds, d, other);
            lemma_fold_found(f.folds, c, sub);
            let b = after.folds;
            if k < f.folds.len() {
                assert forall|j: int| 0 <= j < k implies !((#[trigger] b[j]).calc == c && b[j].sub
                    == sub) by {
                    assert(!(f.folds[j].calc == c && f.folds[j].sub == sub));
                }
                assert(b[k].calc == c && b[k].sub == sub);
                lemma_fold_at(b, c, sub, k);
            } else {
                assert forall|j: int| 0 <= j < f.folds.len() implies !((#[trigger] b[j]).calc == c
                    && b[j].sub == sub) by {
                    assert(!(f.folds[j].calc == c && f.folds[j].sub == sub));
                }
                if mine {
                    lemma_fold_at(b, c, sub, k);
                } else {
                    lemma_fold_at(b, c, sub, b.len() as int);
                }
            }
            let hs = f.fold_hits;
            if !hs.contains((d, other)) {
                let t = hs.push((d, other));
                assert(t[hs.len() as int] == (d, other));
                if hs.contains((c, sub)) {
                    let j = choose|j: int| 0 <= j < hs.len() && hs[j] == (c, sub);
                    assert(t[j] == (c, sub));
                }
                if t.contains((c, sub)) {
                    let j = choose|j: int| 0 <= j < t.len() && t[j] == (c, sub);
                    if j < hs.len() {
                        assert(hs[j] == (c, sub));
                    }
                }
            }
        },
    }
}

/// A hit reaches the share of the subscriber once, if it is among those it delivers to.
proof fn lemma_many_share(
    world: World,
    f: Frame,
    d: CalcId,
    g: u32,
    subs: Seq<InstanceId>,
    w: WriteModel,
    n: int,
    c: CalcId,
    sub: InstanceId,
)
    requires
        0 <= n <= subs.len(),
        subs.no_duplicates(),
        world.infos[c.0 as int].n_groups <= 1,
    ensures
        share(deliver_many(world, f, d, g, subs, w, n), c, sub) == (if d == c && subs.take(
            n,
        ).contains(sub) {
            share_with(share(f, c, sub), world.infos[c.0 as int], c, sub, world.store, w)
        } else {
            share(f, c, sub)
        }),
    decreases n,
{
    if n > 0 {
        lemma_many_share(world, f, d, g, subs, w, n - 1, c, sub);
        let before = deliver_many(world, f, d, g, subs, w, n - 1);
        let info = world.infos[d.0 as int];
        let x = subs[n - 1];
        let s = subs.take(n - 1);
        let t = subs.take(n);
        assert(t =~= s.push(x));
        assert(t.contains(sub) <==> s.contains(sub) || sub == x) by {
            if s.contains(sub) {
                let k = choose|k: int| 0 <= k < s.len() && s[k] == sub;
                assert(t[k] == sub);
            }
            assert(t[n - 1] == x);
            if t.contains(sub) {
                let k = choose|k: int| 0 <= k < t.len() && t[k] == sub;
                if k < n - 1 {
                    assert(s[k] == sub);
                }
            }
        }
        if s.contains(sub) {
            let k = choose|k: int| 0 <= k < s.len() && s[k] == sub;
            assert(subs[k] != subs[n - 1]);
        }
        if info.n_groups > 1 {
            let (latches, fire) = crate::runtime::route::latch_step(
                before.latches,
                d,
                x,
                info.n_groups,
                g,
            );
            let h = Frame { latches, ..before };
            assert(share(h, c, sub) == share(before, c, sub));
            lemma_deliver_share(h, info, d, x, w, world.store, c, sub);
        } else {
            lemma_deliver_share(before, info, d, x, w, world.store, c, sub);
        }
    } else {
        assert(subs.take(0) =~= Seq::empty());
    }
}

proof fn lemma_woken_once(
    world: World,
    c: CalcId,
    subs: Seq<InstanceId>,
    w: WriteModel,
    n: int,
)
    requires
        0 <= n <= subs.len(),
        subs.no_duplicates(),
    ensures
        woken(world, c, subs, w, n).no_duplicates(),
    decreases n,
{
    if n > 0 {
        lemma_woken_once(world, c, subs, w, n - 1);
        let a = woken(world, c, subs, w, n - 1);
        let b = woken(world, c, subs, w, n);
        lemma_woken(world, c, subs, w, n - 1, subs[n - 1]);
        assert(!subs.take(n - 1).contains(subs[n - 1])) by {
            let s = subs.take(n - 1);
            if s.contains(subs[n - 1]) {
                let k = choose|k: int| 0 <= k < s.len() && s[k] == subs[n - 1];
                assert(subs[k] == subs[n - 1]);
            }
        }
        assert forall|i: int, j: int|
            0 <= i < b.len() && 0 <= j < b.len() && i != j implies b[i] != b[j] by {
            if i < a.len() && j < a.len() {
                assert(a[i] != a[j]);
            } else if i < a.len() {
                assert(a.contains(a[i]));
            } else {
                assert(a.contains(a[j]));
            }
        }
    }
}

proof fn lemma_targets_once(world: World, h: Hit, w: WriteModel)
    requires
        world.store.wf(),
    ensures
        targets_of(world, h, w).no_duplicates(),
{
    if h.sub is None {
        let ty = world.infos[h.calc.0 as int].ty;
        let all = world.store.instances(ty);
        law_instances_are_the_alive_ones(world.store, ty);
        lemma_woken_once(world, h.calc, all, w, all.len() as int);
    }
}

proof fn lemma_again(ws: Seq<WriteModel>, w: WriteModel, n: nat)
    ensures
        ws + Seq::new(n + 1, |i: int| w) == (ws + Seq::new(n, |i: int| w)).push(w),
{
    assert(ws + Seq::new(n + 1, |i: int| w) =~= (ws + Seq::new(n, |i: int| w)).push(w));
}

proof fn lemma_hits_share(
    world: World,
    f: Frame,
    hits: Seq<Hit>,
    w: WriteModel,
    n: int,
    c: CalcId,
    sub: InstanceId,
    s0: Share,
    ws: Seq<WriteModel>,
)
    requires
        0 <= n <= hits.len(),
        world.store.wf(),
        c.0 < world.infos.len(),
        world.infos[c.0 as int].n_groups == 1,
        forall|i: int| 0 <= i < hits.len() ==> hit_ok(#[trigger] hits[i], world.infos),
        share(f, c, sub) == share_after(
            s0,
            world.infos[c.0 as int],
            c,
            sub,
            world.store,
            ws,
        ),
    ensures
        share(route_hits(world, f, hits, w, n), c, sub) == share_after(
            s0,
            world.infos[c.0 as int],
            c,
            sub,
            world.store,
            ws + Seq::new(deliveries_upto(world, hits, w, c, 0, sub, n), |i: int| w),
        ),
    decreases n,
{
    if n > 0 {
        lemma_hits_share(world, f, hits, w, n - 1, c, sub, s0, ws);
        let h = hits[n - 1];
        assert(hit_ok(h, world.infos));
        let subs = targets_of(world, h, w);
        let before = route_hits(world, f, hits, w, n - 1);
        lemma_targets_once(world, h, w);
        lemma_many_share(world, before, h.calc, h.group, subs, w, subs.len() as int, c, sub);
        assert(subs.take(subs.len() as int) =~= subs);
        let m = deliveries_upto(world, hits, w, c, 0, sub, n - 1);
        if delivers(world, h, w, c, 0, sub) {
            lemma_again(ws, w, m);
            let all = ws + Seq::new(m + 1, |i: int| w);
            assert(all.drop_last() =~= ws + Seq::new(m, |i: int| w));
            assert(all.last() == w);
        }
    } else {
        assert(ws + Seq::new(0, |i: int| w) =~= ws);
    }
}

/// A subscriber gets the writes that are delivered to it, each as often as it is delivered and
/// in the order of the log, and nothing else touches what it gets.
pub proof fn law_subscribers_get_their_writes<F>(
    rt: Runtime<F>,
    start: Frame,
    log: Seq<WriteModel>,
    n: int,
    c: CalcId,
    sub: InstanceId,
)
    requires
        rt.wf(),
        0 <= n <= log.len(),
        c.0 < rt.infos@.len(),
        rt.infos@[c.0 as int].n_groups == 1,
    ensures
        share(route_log(rt.world(), start, log, n), c, sub) == share_after(
            share(start, c, sub),
            rt.infos@[c.0 as int],
            c,
            sub,
            rt.store,
            received(rt.world(), c, sub, log, n),
        ),
    decreases n,
{
    let world = rt.world();
    if n > 0 {
        law_subscribers_get_their_writes(rt, start, log, n - 1, c, sub);
        let w = log[n - 1];
        let hits = world.idx.hits_of(world.refs, w, world.tys);
        assert forall|x: int| 0 <= x < world.infos.len() implies #[trigger] world.tys[x]
            == world.infos[x].ty by {
            assert(world.infos[x].n_groups >= 1);
        }
        lemma_hits_ok(world.idx, world.infos, world.refs, w, world.tys);
        lemma_hits_share(
            world,
            route_log(world, start, log, n - 1),
            hits,
            w,
            hits.len() as int,
            c,
            sub,
            share(start, c, sub),
            received(world, c, sub, log, n - 1),
        );
        assert(Seq::new(deliveries(world, c, 0, sub, w), |i: int| log[n - 1]) =~= Seq::new(
            deliveries(world, c, 0, sub, w),
            |i: int| w,
        ));
    }
}

/// An aggregate takes in writes, in order.
pub open spec fn acc_after(
    op: FoldOp,
    acc: Option<FoldModel>,
    ws: Seq<WriteModel>,
) -> Option<FoldModel>
    decreases ws.len(),
{
    if ws.len() == 0 {
        acc
    } else {
        Some(folded(op, acc_after(op, acc, ws.drop_last()), ws.last()))
    }
}

/// The rows of writes in a batch.
pub open spec fn rows_of_writes(
    info: CalcInfo,
    sub: InstanceId,
    store: Store,
    ws: Seq<WriteModel>,
) -> Seq<RowModel> {
    Seq::new(ws.len(), |i: int| row_of(info, sub, store, ws[i]))
}

proof fn lemma_share_after(
    s: Share,
    info: CalcInfo,
    c: CalcId,
    sub: InstanceId,
    store: Store,
    ws: Seq<WriteModel>,
)
    ensures
        share_after(s, info, c, sub, store, ws) == (match info.pred.delivery {
            Delivery::Each(_) => Share {
                triggers: s.triggers + Seq::new(
                    ws.len(),
                    |i: int| each_of(info, c, sub, store, ws[i]),
                ),
                ..s
            },
            Delivery::Batch(_) => Share {
                rows: s.rows + rows_of_writes(info, sub, store, ws),
                ..s
            },
            Delivery::Fold(op) => Share {
                acc: acc_after(op, s.acc, ws),
                due: s.due || ws.len() > 0,
                ..s
            },
        }),
    decreases ws.len(),
{
    let all = Seq::new(ws.len(), |i: int| each_of(info, c, sub, store, ws[i]));
    let rows = rows_of_writes(info, sub, store, ws);
    if ws.len() == 0 {
        assert(s.triggers + all =~= s.triggers);
        assert(s.rows + rows =~= s.rows);
    } else {
        let t = ws.drop_last();
        lemma_share_after(s, info, c, sub, store, t);
        let part = Seq::new(t.len(), |i: int| each_of(info, c, sub, store, t[i]));
        assert(s.triggers + all =~= (s.triggers + part).push(
            each_of(info, c, sub, store, ws.last()),
        ));
        assert(s.rows + rows =~= (s.rows + rows_of_writes(info, sub, store, t)).push(
            row_of(info, sub, store, ws.last()),
        ));
    }
}

/// What a frame has collected is in order: each delivery in its place, each batch and each
/// aggregate once.
spec fn tidy(f: Frame, infos: Seq<CalcInfo>) -> bool {
    &&& forall|i: int|
        0 <= i < f.triggers.len() ==> infos[(#[trigger] f.triggers[i]).calc.0 as int].pred.delivery
            is Each
    &&& forall|i: int|
        0 <= i < f.batches.len() ==> infos[(#[trigger] f.batches[i]).calc.0 as int].pred.delivery
            is Batch && f.batches[i].rows.len() > 0
    &&& forall|i: int, j: int|
        0 <= i < j < f.batches.len() ==> !((#[trigger] f.batches[i]).calc == (
        #[trigger] f.batches[j]).calc && f.batches[i].sub == f.batches[j].sub)
    &&& forall|i: int|
        0 <= i < f.fold_hits.len() ==> infos[(#[trigger] f.fold_hits[i]).0.0 as int].pred.delivery
            is Fold
    &&& f.fold_hits.no_duplicates()
}

proof fn lemma_tidy_now(
    f: Frame,
    infos: Seq<CalcInfo>,
    c: CalcId,
    sub: InstanceId,
    w: WriteModel,
    store: Store,
)
    requires
        tidy(f, infos),
    ensures
        tidy(deliver_now(f, infos[c.0 as int], c, sub, w, store), infos),
{
    let info = infos[c.0 as int];
    let after = deliver_now(f, info, c, sub, w, store);
    match info.pred.delivery {
        Delivery::Each(_) => {
            assert forall|i: int| 0 <= i < after.triggers.len() implies infos[(
            #[trigger] after.triggers[i]).calc.0 as int].pred.delivery is Each by {
                if i < f.triggers.len() {
                    assert(after.triggers[i] == f.triggers[i]);
                }
            }
        },
        Delivery::Batch(_) => {
            let b = after.batches;
            let k = batch_at(f.batches, c, sub);
            lemma_batch_place(f.batches, c, sub);
            assert forall|i: int| 0 <= i < b.len() implies infos[(
            #[trigger] b[i]).calc.0 as int].pred.delivery is Batch && b[i].rows.len() > 0 by {
                if i < f.batches.len() && i != k {
                    assert(b[i] == f.batches[i]);
                }
            }
            assert forall|i: int, j: int| 0 <= i < j < b.len() implies !((#[trigger] b[i]).calc == (
            #[trigger] b[j]).calc && b[i].sub == b[j].sub) by {
                if j < f.batches.len() {
                    assert(!(f.batches[i].calc == f.batches[j].calc && f.batches[i].sub
                        == f.batches[j].sub));
                } else {
                    assert(!(f.batches[i].calc == c && f.batches[i].sub == sub));
                }
            }
        },
        Delivery::Fold(_) => {
            let hs = f.fold_hits;
            let t = after.fold_hits;
            assert forall|i: int| 0 <= i < t.len() implies infos[(
            #[trigger] t[i]).0.0 as int].pred.delivery is Fold by {
                if i < hs.len() {
                    assert(t[i] == hs[i]);
                }
            }
            if !hs.contains((c, sub)) {
                assert forall|i: int, j: int|
                    0 <= i < t.len() && 0 <= j < t.len() && i != j implies t[i] != t[j] by {
                    if i < hs.len() && j < hs.len() {
                        assert(hs[i] != hs[j]);
                    } else if i < hs.len() {
                        assert(hs.contains(hs[i]));
                    } else {
                        assert(hs.contains(hs[j]));
                    }
                }
            }
        },
    }
}

proof fn lemma_tidy_many(
    world: World,
    f: Frame,
    c: CalcId,
    g: u32,
    subs: Seq<InstanceId>,
    w: WriteModel,
    n: int,
)
    requires
        tidy(f, world.infos),
    ensures
        tidy(deliver_many(world, f, c, g, subs, w, n), world.infos),
    decreases n,
{
    if n > 0 {
        lemma_tidy_many(world, f, c, g, subs, w, n - 1);
        let before = deliver_many(world, f, c, g, subs, w, n - 1);
        let info = world.infos[c.0 as int];
        let x = subs[n - 1];
        let (latches, fire) = crate::runtime::route::latch_step(
            before.latches,
            c,
            x,
            info.n_groups,
            g,
        );
        lemma_tidy_now(Frame { latches, ..before }, world.infos, c, x, w, world.store);
        lemma_tidy_now(before, world.infos, c, x, w, world.store);
    }
}

proof fn lemma_tidy_hits(world: World, f: Frame, hits: Seq<Hit>, w: WriteModel, n: int)
    requires
        tidy(f, world.infos),
    ensures
        tidy(route_hits(world, f, hits, w, n), world.infos),
    decreases n,
{
    if n > 0 {
        lemma_tidy_hits(world, f, hits, w, n - 1);
        let h = hits[n - 1];
        let subs = targets_of(world, h, w);
        lemma_tidy_many(
            world,
            route_hits(world, f, hits, w, n - 1),
            h.calc,
            h.group,
            subs,
            w,
            subs.len() as int,
        );
    }
}

proof fn lemma_tidy_log(world: World, f: Frame, log: Seq<WriteModel>, n: int)
    requires
        tidy(f, world.infos),
    ensures
        tidy(route_log(world, f, log, n), world.infos),
    decreases n,
{
    if n > 0 {
        lemma_tidy_log(world, f, log, n - 1);
        let hits = world.idx.hits_of(world.refs, log[n - 1], world.tys);
        lemma_tidy_hits(
            world,
            route_log(world, f, log, n - 1),
            hits,
            log[n - 1],
            hits.len() as int,
        );
    }
}

proof fn lemma_dirty_hits(store: Store, dirty: Seq<(CalcId, InstanceId)>, n: int)
    requires
        0 <= n <= dirty.len(),
    ensures
        dirty_hits(store, dirty, n).no_duplicates(),
        forall|i: int|
            0 <= i < dirty_hits(store, dirty, n).len() ==> dirty.contains(
                #[trigger] dirty_hits(store, dirty, n)[i],
            ),
    decreases n,
{
    if n > 0 {
        lemma_dirty_hits(store, dirty, n - 1);
        let r = dirty_hits(store, dirty, n - 1);
        let s = dirty_hits(store, dirty, n);
        let d = dirty[n - 1];
        if store.is_alive(d.1) && !r.contains(d) {
            assert forall|i: int, j: int|
                0 <= i < s.len() && 0 <= j < s.len() && i != j implies s[i] != s[j] by {
                if i < r.len() && j < r.len() {
                    assert(r[i] != r[j]);
                } else if i < r.len() {
                    assert(r.contains(r[i]));
                } else {
                    assert(r.contains(r[j]));
                }
            }
            assert forall|i: int| 0 <= i < s.len() implies dirty.contains(#[trigger] s[i]) by {
                if i < r.len() {
                    assert(s[i] == r[i]);
                } else {
                    assert(dirty[n - 1] == s[i]);
                }
            }
        }
    }
}

proof fn lemma_trigs_concat(a: Seq<Trig>, b: Seq<Trig>, c: CalcId, sub: InstanceId)
    ensures
        trigs_for(a + b, c, sub) == trigs_for(a, c, sub) + trigs_for(b, c, sub),
    decreases b.len(),
{
    if b.len() == 0 {
        assert(a + b =~= a);
        assert(trigs_for(a, c, sub) + trigs_for(b, c, sub) =~= trigs_for(a, c, sub));
    } else {
        lemma_trigs_concat(a, b.drop_last(), c, sub);
        assert((a + b).drop_last() =~= a + b.drop_last());
        assert(trigs_for(a + b, c, sub) =~= trigs_for(a, c, sub) + trigs_for(b, c, sub));
    }
}

/// Where every subscriber has one trigger at most, the list has that of one, or nothing.
proof fn lemma_trigs_one(ts: Seq<Trig>, c: CalcId, sub: InstanceId, k: int)
    requires
        forall|i: int, j: int|
            0 <= i < j < ts.len() ==> !((#[trigger] ts[i]).calc == (#[trigger] ts[j]).calc
                && ts[i].sub == ts[j].sub),
        0 <= k <= ts.len(),
        forall|i: int| 0 <= i < k ==> !((#[trigger] ts[i]).calc == c && ts[i].sub == sub),
        k < ts.len() ==> ts[k].calc == c && ts[k].sub == sub,
    ensures
        trigs_for(ts, c, sub) == (if k < ts.len() {
            seq![ts[k]]
        } else {
            Seq::empty()
        }),
    decreases ts.len(),
{
    if ts.len() > 0 {
        let t = ts.drop_last();
        let last = ts.len() - 1;
        assert forall|i: int, j: int| 0 <= i < j < t.len() implies !((#[trigger] t[i]).calc == (
        #[trigger] t[j]).calc && t[i].sub == t[j].sub) by {
            assert(ts[i].calc == t[i].calc && ts[j].calc == t[j].calc);
            assert(!(ts[i].calc == ts[j].calc && ts[i].sub == ts[j].sub));
        }
        if k == ts.len() {
            assert(!(ts[last].calc == c && ts[last].sub == sub));
            lemma_trigs_one(t, c, sub, last);
        } else if k == last {
            lemma_trigs_one(t, c, sub, last);
            assert(trigs_for(ts, c, sub) =~= seq![ts[k]]);
        } else {
            assert(!(ts[k].calc == ts[last].calc && ts[k].sub == ts[last].sub));
            assert(t[k] == ts[k]);
            lemma_trigs_one(t, c, sub, k);
        }
    }
}

/// Where no trigger is the subscriber's, it has none.
proof fn lemma_trigs_none(ts: Seq<Trig>, c: CalcId, sub: InstanceId)
    requires
        forall|i: int| 0 <= i < ts.len() ==> (#[trigger] ts[i]).calc != c,
    ensures
        trigs_for(ts, c, sub) == Seq::<Trig>::empty(),
    decreases ts.len(),
{
    if ts.len() > 0 {
        let t = ts.drop_last();
        assert forall|i: int| 0 <= i < t.len() implies (#[trigger] t[i]).calc != c by {
            assert(ts[i] == t[i]);
        }
        lemma_trigs_none(t, c, sub);
        assert(ts[ts.len() - 1].calc != c);
    }
}

/// The triggers that writes come to.
pub open spec fn owed(
    info: CalcInfo,
    c: CalcId,
    sub: InstanceId,
    store: Store,
    det: Determinism,
    acc: Option<FoldModel>,
    due: bool,
    ws: Seq<WriteModel>,
) -> Seq<Trig> {
    match info.pred.delivery {
        Delivery::Each(_) => Seq::new(ws.len(), |i: int| each_of(info, c, sub, store, ws[i])),
        Delivery::Batch(_) => if ws.len() == 0 {
            Seq::empty()
        } else {
            seq![
                batch_trig(
                    BatchModel { calc: c, sub, rows: rows_of_writes(info, sub, store, ws) },
                    det,
                ),
            ]
        },
        Delivery::Fold(op) => if ws.len() == 0 && !due {
            Seq::empty()
        } else {
            seq![
                Trig {
                    calc: c,
                    sub,
                    input: InputModel::Fold(fold_result(op, acc_after(op, acc, ws)->0)),
                },
            ]
        },
    }
}

/// What a subscriber is triggered with in the next frame: hit by hit one trigger for each write
/// that is delivered to it; in a batch one trigger with one row for each, or none; and of an
/// aggregate one trigger with what the writes make of it, where there is one or a member was
/// lost.
pub proof fn law_triggers_are_what_is_owed<F>(rt: Runtime<F>, c: CalcId, sub: InstanceId)
    requires
        rt.wf(),
        c.0 < rt.infos@.len(),
        rt.infos@[c.0 as int].n_groups == 1,
    ensures
        trigs_for(
            frame_triggers(rt.next_routing(), rt.infos@, rt.determinism),
            c,
            sub,
        ) == owed(
            rt.infos@[c.0 as int],
            c,
            sub,
            rt.store,
            rt.determinism,
            acc_at(folds_of(rt.folds@), c, sub),
            dirty_hits(rt.store, rt.fold_dirty@, rt.fold_dirty@.len() as int).contains((c, sub)),
            received(rt.world(), c, sub, rt.next_log(), rt.next_log().len() as int),
        ),
{
    let world = rt.world();
    let infos = rt.infos@;
    let info = infos[c.0 as int];
    let log = rt.next_log();
    let n = log.len() as int;
    let start = start_frame(rt.store, folds_of(rt.folds@), rt.fold_dirty@);
    let f = rt.next_routing();
    let ws = received(world, c, sub, log, n);
    law_subscribers_get_their_writes(rt, start, log, n, c, sub);
    lemma_share_after(share(start, c, sub), info, c, sub, rt.store, ws);
    lemma_dirty_hits(rt.store, rt.fold_dirty@, rt.fold_dirty@.len() as int);
    assert(tidy(start, infos)) by {
        assert forall|i: int| 0 <= i < start.fold_hits.len() implies infos[(
        #[trigger] start.fold_hits[i]).0.0 as int].pred.delivery is Fold by {
            let d = start.fold_hits[i];
            let k = choose|k: int| 0 <= k < rt.fold_dirty@.len() && rt.fold_dirty@[k] == d;
            assert(infos[rt.fold_dirty@[k].0.0 as int].pred.delivery is Fold);
        }
    }
    lemma_tidy_log(world, start, log, n);
    let det = rt.determinism;
    let a = f.triggers;
    let b = Seq::new(f.batches.len(), |i: int| batch_trig(f.batches[i], det));
    let d = Seq::new(f.fold_hits.len(), |i: int| fold_trig(infos, f.folds, f.fold_hits[i]));
    lemma_trigs_concat(a + b, d, c, sub);
    lemma_trigs_concat(a, b, c, sub);
    let none = Seq::<Trig>::empty();
    if !(info.pred.delivery is Each) {
        assert forall|i: int| 0 <= i < a.len() implies (#[trigger] a[i]).calc != c by {
            assert(infos[a[i].calc.0 as int].pred.delivery is Each);
        }
        lemma_trigs_none(a, c, sub);
    }
    if !(info.pred.delivery is Batch) {
        assert forall|i: int| 0 <= i < b.len() implies (#[trigger] b[i]).calc != c by {
            assert(infos[f.batches[i].calc.0 as int].pred.delivery is Batch);
        }
        lemma_trigs_none(b, c, sub);
    }
    if !(info.pred.delivery is Fold) {
        assert forall|i: int| 0 <= i < d.len() implies (#[trigger] d[i]).calc != c by {
            assert(infos[f.fold_hits[i].0.0 as int].pred.delivery is Fold);
        }
        lemma_trigs_none(d, c, sub);
    }
    match info.pred.delivery {
        Delivery::Each(_) => {
            let all = Seq::new(ws.len(), |i: int| each_of(info, c, sub, rt.store, ws[i]));
            assert(none + all =~= all);
            assert(trigs_for(a, c, sub) + none + none =~= all);
        },
        Delivery::Batch(_) => {
            let k = batch_at(f.batches, c, sub);
            lemma_batch_place(f.batches, c, sub);
            assert(rows_at(f.batches, c, sub) == none_rows() + rows_of_writes(
                info,
                sub,
                rt.store,
                ws,
            ));
            assert(none_rows() + rows_of_writes(info, sub, rt.store, ws) =~= rows_of_writes(
                info,
                sub,
                rt.store,
                ws,
            ));
            assert forall|i: int, j: int| 0 <= i < j < b.len() implies !((#[trigger] b[i]).calc == (
            #[trigger] b[j]).calc && b[i].sub == b[j].sub) by {
                assert(!(f.batches[i].calc == f.batches[j].calc && f.batches[i].sub
                    == f.batches[j].sub));
            }
            assert forall|i: int| 0 <= i < k implies !((#[trigger] b[i]).calc == c && b[i].sub
                == sub) by {
                assert(!(f.batches[i].calc == c && f.batches[i].sub == sub));
            }
            lemma_trigs_one(b, c, sub, k);
            if k < f.batches.len() {
                assert(f.batches[k].rows.len() > 0);
                assert(f.batches[k] == (BatchModel {
                    calc: c,
                    sub,
                    rows: rows_of_writes(info, sub, rt.store, ws),
                }));
            }
            assert(none + trigs_for(b, c, sub) + none =~= trigs_for(b, c, sub));
        },
        Delivery::Fold(op) => {
            let hs = f.fold_hits;
            assert forall|i: int, j: int| 0 <= i < j < d.len() implies !((#[trigger] d[i]).calc == (
            #[trigger] d[j]).calc && d[i].sub == d[j].sub) by {
                assert(hs[i] != hs[j]);
            }
            if hs.contains((c, sub)) {
                let k = choose|k: int| 0 <= k < hs.len() && hs[k] == (c, sub);
                assert forall|i: int| 0 <= i < k implies !((#[trigger] d[i]).calc == c && d[i].sub
                    == sub) by {
                    assert(hs[i] != hs[k]);
                }
                lemma_trigs_one(d, c, sub, k);
                lemma_acc_there(rt, ws, c, sub, op);
            } else {
                assert forall|i: int| 0 <= i < d.len() implies !((#[trigger] d[i]).calc == c
                    && d[i].sub == sub) by {
                    assert(hs.contains(hs[i]));
                }
                lemma_trigs_one(d, c, sub, d.len() as int);
            }
            assert(none + none + trigs_for(d, c, sub) =~= trigs_for(d, c, sub));
        },
    }
}

spec fn none_rows() -> Seq<RowModel> {
    Seq::empty()
}

/// An aggregate that lost a member is still kept.
proof fn lemma_acc_there<F>(
    rt: Runtime<F>,
    ws: Seq<WriteModel>,
    c: CalcId,
    sub: InstanceId,
    op: FoldOp,
)
    requires
        rt.wf(),
        ws.len() > 0 || dirty_hits(
            rt.store,
            rt.fold_dirty@,
            rt.fold_dirty@.len() as int,
        ).contains((c, sub)),
    ensures
        acc_after(op, acc_at(folds_of(rt.folds@), c, sub), ws) is Some,
{
    if ws.len() == 0 {
        let hs = dirty_hits(rt.store, rt.fold_dirty@, rt.fold_dirty@.len() as int);
        lemma_dirty_hits(rt.store, rt.fold_dirty@, rt.fold_dirty@.len() as int);
        let i = choose|i: int| 0 <= i < hs.len() && hs[i] == (c, sub);
        assert(rt.fold_dirty@.contains(hs[i]));
        let k = choose|k: int| 0 <= k < rt.fold_dirty@.len() && rt.fold_dirty@[k] == hs[i];
        assert(rt.fold_dirty@[k].0 == c);
    }
}

/// Those of the first `n` writes of a log that a subscriber sees by the atom and that its
/// condition holds of.
pub open spec fn matching(
    store: Store,
    info: CalcInfo,
    a: Atom,
    sub: InstanceId,
    log: Seq<WriteModel>,
    n: int,
) -> Seq<WriteModel>
    decreases n,
{
    if n <= 0 {
        Seq::empty()
    } else {
        let r = matching(store, info, a, sub, log, n - 1);
        let w = log[n - 1];
        if atom_sees(store, a, sub, w) && holds(
            info.pred.cond,
            env_of(store, sub, w.new, w.old),
        ) {
            r.push(w)
        } else {
            r
        }
    }
}

/// With one atom in its scope, an alive subscriber gets every matching write exactly once, in
/// the order of the log.
pub proof fn law_matching_writes_arrive_once<F>(
    rt: Runtime<F>,
    c: CalcId,
    a: Atom,
    sub: InstanceId,
    log: Seq<WriteModel>,
    n: int,
)
    requires
        rt.wf(),
        c.0 < rt.infos@.len(),
        !runs_always(rt.infos@[c.0 as int], rt.clock.ty, rt.clock.f_frame),
        watched_groups(rt.infos@[c.0 as int]) == seq![seq![a]],
        rt.store.is_alive(sub),
        sub.ty == rt.infos@[c.0 as int].ty,
        0 <= n <= log.len(),
    ensures
        received(rt.world(), c, sub, log, n) == matching(
            rt.store,
            rt.infos@[c.0 as int],
            a,
            sub,
            log,
            n,
        ),
    decreases n,
{
    if n > 0 {
        let info = rt.infos@[c.0 as int];
        let w = log[n - 1];
        law_matching_writes_arrive_once(rt, c, a, sub, log, n - 1);
        law_one_delivery_per_atom(rt, c, 0, sub, w);
        let group = seq![a];
        assert(watched_groups(info)[0] == group);
        assert(group.drop_last() =~= Seq::empty());
        assert(seen_by(rt.store, group.drop_last(), sub, w).len() == 0);
        assert(seen_by(rt.store, group, sub, w).len() == (if atom_sees(rt.store, a, sub, w) {
            1nat
        } else {
            0nat
        }));
        let before = received(rt.world(), c, sub, log, n - 1);
        assert(received(rt.world(), c, sub, log, n) =~= (if deliveries(rt.world(), c, 0, sub, w)
            == 1 {
            before.push(w)
        } else {
            before
        }));
    }
}

proof fn lemma_trigs_of_calc(ts: Seq<Trig>, d: int, c: CalcId, sub: InstanceId)
    ensures
        trigs_for(of_calc(ts, d), c, sub) == (if d == c.0 {
            trigs_for(ts, c, sub)
        } else {
            Seq::empty()
        }),
    decreases ts.len(),
{
    if ts.len() > 0 {
        let r = of_calc(ts.drop_last(), d);
        lemma_trigs_of_calc(ts.drop_last(), d, c, sub);
        if ts.last().calc.0 == d {
            lemma_trigs_push(r, ts.last(), c, sub);
        }
    }
}

/// Ordering by calculation keeps the triggers of each subscriber, and their order.
proof fn lemma_trigs_by_calc(ts: Seq<Trig>, n: int, c: CalcId, sub: InstanceId)
    ensures
        trigs_for(by_calc(ts, n), c, sub) == (if c.0 < n {
            trigs_for(ts, c, sub)
        } else {
            Seq::empty()
        }),
    decreases n,
{
    if n > 0 {
        lemma_trigs_by_calc(ts, n - 1, c, sub);
        lemma_trigs_concat(by_calc(ts, n - 1), of_calc(ts, n - 1), c, sub);
        lemma_trigs_of_calc(ts, n - 1, c, sub);
        let all = trigs_for(ts, c, sub);
        assert(Seq::<Trig>::empty() + all =~= all);
        assert(all + Seq::<Trig>::empty() =~= all);
    }
}

proof fn lemma_ecs_calcs(
    store: Store,
    infos: Seq<CalcInfo>,
    ecs: Seq<CalcId>,
    writer: InstanceId,
    frame: u64,
    n: int,
)
    requires
        0 <= n <= ecs.len(),
    ensures
        forall|i: int|
            0 <= i < ecs_trigs(store, infos, ecs, writer, frame, n).len() ==> ecs.contains(
                (#[trigger] ecs_trigs(store, infos, ecs, writer, frame, n)[i]).calc,
            ),
    decreases n,
{
    if n > 0 {
        lemma_ecs_calcs(store, infos, ecs, writer, frame, n - 1);
        let a = ecs_trigs(store, infos, ecs, writer, frame, n - 1);
        let b = ecs_trigs(store, infos, ecs, writer, frame, n);
        assert forall|i: int| 0 <= i < b.len() implies ecs.contains((#[trigger] b[i]).calc) by {
            if i < a.len() {
                assert(b[i] == a[i]);
            } else {
                assert(b[i].calc == ecs[n - 1]);
            }
        }
    }
}

/// What runs for a subscriber in a frame is what is owed to it, in that order.
pub proof fn law_runs_are_what_is_owed<F>(
    after: Runtime<F>,
    before: Runtime<F>,
    triggers: Seq<Trig>,
    c: CalcId,
    sub: InstanceId,
)
    requires
        before.wf(),
        after.begun(before, triggers),
        c.0 < before.infos@.len(),
        before.infos@[c.0 as int].n_groups == 1,
        !runs_always(before.infos@[c.0 as int], before.clock.ty, before.clock.f_frame),
    ensures
        trigs_for(triggers, c, sub) == owed(
            before.infos@[c.0 as int],
            c,
            sub,
            before.store,
            before.determinism,
            acc_at(folds_of(before.folds@), c, sub),
            dirty_hits(
                before.store,
                before.fold_dirty@,
                before.fold_dirty@.len() as int,
            ).contains((c, sub)),
            received(
                before.world(),
                c,
                sub,
                before.next_log(),
                before.next_log().len() as int,
            ),
        ),
{
    let n = before.infos@.len() as int;
    let ecs = before.ecs_calcs@;
    let frame = (before.frame + 1) as u64;
    let a = frame_triggers(before.next_routing(), before.infos@, before.determinism);
    let b = ecs_trigs(
        before.store,
        before.infos@,
        ecs,
        before.clock.inst,
        frame,
        ecs.len() as int,
    );
    law_triggers_are_what_is_owed(before, c, sub);
    lemma_trigs_by_calc(before.next_trigs(), n, c, sub);
    lemma_trigs_concat(a, b, c, sub);
    lemma_ecs_calcs(
        before.store,
        before.infos@,
        ecs,
        before.clock.inst,
        frame,
        ecs.len() as int,
    );
    assert(!ecs.contains(c)) by {
        assert(ecs.contains(CalcId(c.0 as int as u32)) <==> runs_always(
            before.infos@[c.0 as int],
            before.clock.ty,
            before.clock.f_frame,
        ));
    }
    assert forall|i: int| 0 <= i < b.len() implies (#[trigger] b[i]).calc != c by {
        assert(ecs.contains(b[i].calc));
    }
    lemma_trigs_none(b, c, sub);
    assert(trigs_for(a, c, sub) + Seq::<Trig>::empty() =~= trigs_for(a, c, sub));
}

}
