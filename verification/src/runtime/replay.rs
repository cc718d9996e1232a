//! Replay: runtimes with the same data go on in the same way.
use crate::calculation::CalcId;
use crate::entity::EntityTypeId;
use crate::entity::FieldId;
use crate::entity::InstanceId;
use crate::runtime::api::law_restore_undoes;
use crate::runtime::api::Snapshot;
use crate::runtime::clock::tick_log;
use crate::runtime::engine::Runtime;
use crate::runtime::eval::env_of;
use crate::runtime::index::Hit;
use crate::runtime::lifecycle::WriteModel;
use crate::runtime::route::folds_of;
use crate::runtime::route::Frame;
use crate::runtime::routing::deliver_many;
use crate::runtime::routing::dirty_hits;
use crate::runtime::routing::infos_ok;
use crate::runtime::routing::route_hits;
use crate::runtime::routing::route_log;
use crate::runtime::routing::start_frame;
use crate::runtime::routing::targets_of;
use crate::runtime::routing::woken;
use crate::runtime::routing::World;
use crate::runtime::schedule::ecs_for;
use crate::runtime::schedule::ecs_trigs;
use crate::runtime::store::Store;
use crate::runtime::CalcInfo;
use crate::value::Val;
use vstd::prelude::*;

verus! {

/// The data reads the same: every cell, and the instances of every type.
pub open spec fn reads_alike(a: Store, b: Store) -> bool {
    &&& forall|i: InstanceId, f: FieldId| #[trigger] a.value(i, f) == b.value(i, f)
    &&& forall|ty: EntityTypeId| #[trigger] a.instances(ty) == b.instances(ty)
}

/// Routing sees the same.
pub open spec fn worlds_alike(a: World, b: World) -> bool {
    &&& reads_alike(a.store, b.store)
    &&& a.infos == b.infos
    &&& a.idx == b.idx
    &&& a.refs.by_target@ == b.refs.by_target@
    &&& a.tys == b.tys
    &&& infos_ok(b.infos, b.tys)
}

proof fn lemma_env(a: Store, b: Store, sub: InstanceId, new: Val, old: Val)
    requires
        reads_alike(a, b),
    ensures
        env_of(a, sub, new, old) == env_of(b, sub, new, old),
{
    let x = env_of(a, sub, new, old);
    let y = env_of(b, sub, new, old);
    assert forall|f: FieldId| #[trigger] (x.row)(f) == (y.row)(f) by {
        assert(a.value(sub, f) == b.value(sub, f));
    }
    assert(x.row =~= y.row);
}

proof fn lemma_woken(a: World, b: World, c: CalcId, subs: Seq<InstanceId>, w: WriteModel, n: int)
    requires
        worlds_alike(a, b),
    ensures
        woken(a, c, subs, w, n) == woken(b, c, subs, w, n),
    decreases n,
{
    if n > 0 {
        lemma_woken(a, b, c, subs, w, n - 1);
        lemma_env(a.store, b.store, subs[n - 1], w.new, w.old);
    }
}

proof fn lemma_targets(a: World, b: World, h: Hit, w: WriteModel)
    requires
        worlds_alike(a, b),
        h.calc.0 < b.infos.len(),
    ensures
        targets_of(a, h, w) == targets_of(b, h, w),
{
    match h.sub {
        Some(s) => {
            lemma_env(a.store, b.store, s, w.new, w.old);
            assert(a.store.is_alive(s) == b.store.is_alive(s));
        },
        None => {
            let ty = b.infos[h.calc.0 as int].ty;
            assert(a.store.instances(ty) == b.store.instances(ty));
            let all = b.store.instances(ty);
            lemma_woken(a, b, h.calc, all, w, all.len() as int);
        },
    }
}

proof fn lemma_deliver_many(
    a: World,
    b: World,
    f: Frame,
    c: CalcId,
    g: u32,
    subs: Seq<InstanceId>,
    w: WriteModel,
    n: int,
)
    requires
        worlds_alike(a, b),
    ensures
        deliver_many(a, f, c, g, subs, w, n) == deliver_many(b, f, c, g, subs, w, n),
    decreases n,
{
    if n > 0 {
        lemma_deliver_many(a, b, f, c, g, subs, w, n - 1);
        lemma_env(a.store, b.store, subs[n - 1], w.new, w.old);
    }
}

proof fn lemma_route_hits(a: World, b: World, f: Frame, hits: Seq<Hit>, w: WriteModel, n: int)
    requires
        worlds_alike(a, b),
        0 <= n <= hits.len(),
        forall|i: int| 0 <= i < hits.len() ==> (#[trigger] hits[i]).calc.0 < b.infos.len(),
    ensures
        route_hits(a, f, hits, w, n) == route_hits(b, f, hits, w, n),
    decreases n,
{
    if n > 0 {
        lemma_route_hits(a, b, f, hits, w, n - 1);
        let h = hits[n - 1];
        lemma_targets(a, b, h, w);
        let subs = targets_of(b, h, w);
        lemma_deliver_many(
            a,
            b,
            route_hits(b, f, hits, w, n - 1),
            h.calc,
            h.group,
            subs,
            w,
            subs.len() as int,
        );
    }
}

proof fn lemma_route_log(a: World, b: World, f: Frame, log: Seq<WriteModel>, n: int)
    requires
        worlds_alike(a, b),
        0 <= n <= log.len(),
        forall|w: WriteModel, i: int|
            #![trigger b.idx.hits_of(b.refs, w, b.tys)[i]]
            0 <= i < b.idx.hits_of(b.refs, w, b.tys).len() ==> b.idx.hits_of(
                b.refs,
                w,
                b.tys,
            )[i].calc.0 < b.infos.len(),
    ensures
        route_log(a, f, log, n) == route_log(b, f, log, n),
    decreases n,
{
    if n > 0 {
        lemma_route_log(a, b, f, log, n - 1);
        let w = log[n - 1];
        let hits = b.idx.hits_of(b.refs, w, b.tys);
        assert(a.idx.hits_of(a.refs, w, a.tys) == hits);
        lemma_route_hits(a, b, route_log(b, f, log, n - 1), hits, w, hits.len() as int);
    }
}

proof fn lemma_dirty(a: Store, b: Store, dirty: Seq<(CalcId, InstanceId)>, n: int)
    requires
        reads_alike(a, b),
    ensures
        dirty_hits(a, dirty, n) == dirty_hits(b, dirty, n),
    decreases n,
{
    if n > 0 {
        lemma_dirty(a, b, dirty, n - 1);
        assert(a.is_alive(dirty[n - 1].1) == b.is_alive(dirty[n - 1].1));
    }
}

proof fn lemma_ecs(
    a: Store,
    b: Store,
    infos: Seq<CalcInfo>,
    ecs: Seq<CalcId>,
    writer: InstanceId,
    frame: u64,
    n: int,
)
    requires
        reads_alike(a, b),
        0 <= n <= ecs.len(),
    ensures
        ecs_trigs(a, infos, ecs, writer, frame, n) == ecs_trigs(b, infos, ecs, writer, frame, n),
    decreases n,
{
    if n > 0 {
        lemma_ecs(a, b, infos, ecs, writer, frame, n - 1);
        let info = infos[ecs[n - 1].0 as int];
        assert(a.instances(info.ty) == b.instances(info.ty));
        let subs = b.instances(info.ty);
        let m = subs.len() as int;
        let new = Val::Int(frame as i64);
        let old = Val::Int((frame - 1) as i64);
        assert forall|i: int| 0 <= i < m implies env_of(a, #[trigger] subs[i], new, old) == env_of(
            b,
            subs[i],
            new,
            old,
        ) by {
            lemma_env(a, b, subs[i], new, old);
        }
        assert(ecs_for(a, info, ecs[n - 1], writer, frame, subs, m) =~= ecs_for(
            b,
            info,
            ecs[n - 1],
            writer,
            frame,
            subs,
            m,
        ));
    }
}

/// A frame replayed from a snapshot is the same frame: a runtime that went back to a
/// snapshot routes the same writes and has the same triggers, in the same order and with the
/// same deliveries, as the runtime had when the snapshot was taken.
pub proof fn law_replay_routes_alike<F>(snap: Snapshot, taken: Runtime<F>, restored: Runtime<F>)
    requires
        taken.wf(),
        restored.wf(),
        snap.captures(taken),
        snap.captures(restored),
        restored.infos == taken.infos,
        restored.tys == taken.tys,
        restored.idx == taken.idx,
        restored.ecs_calcs == taken.ecs_calcs,
        restored.determinism == taken.determinism,
    ensures
        restored.next_log() == taken.next_log(),
        restored.next_routing() == taken.next_routing(),
        restored.next_trigs() == taken.next_trigs(),
{
    law_restore_undoes(snap, taken, restored);
    let a = restored.world();
    let b = taken.world();
    let frame = (taken.frame + 1) as u64;
    assert(worlds_alike(a, b));
    assert(tick_log(restored.clock, restored.store, frame) == tick_log(
        taken.clock,
        taken.store,
        frame,
    ));
    assert(restored.next_log() == taken.next_log());
    lemma_dirty(
        restored.store,
        taken.store,
        taken.fold_dirty@,
        taken.fold_dirty@.len() as int,
    );
    assert forall|w: WriteModel, i: int|
        #![trigger b.idx.hits_of(b.refs, w, b.tys)[i]]
        0 <= i < b.idx.hits_of(b.refs, w, b.tys).len() implies b.idx.hits_of(
        b.refs,
        w,
        b.tys,
    )[i].calc.0 < b.infos.len() by {
        crate::runtime::routing::lemma_hits_ok(b.idx, b.infos, b.refs, w, b.tys);
    }
    let start = start_frame(taken.store, folds_of(taken.folds@), taken.fold_dirty@);
    assert(start_frame(restored.store, folds_of(restored.folds@), restored.fold_dirty@) == start);
    lemma_route_log(a, b, start, taken.next_log(), taken.next_log().len() as int);
    lemma_ecs(
        restored.store,
        taken.store,
        taken.infos@,
        taken.ecs_calcs@,
        taken.clock.inst,
        frame,
        taken.ecs_calcs@.len() as int,
    );
}

}
