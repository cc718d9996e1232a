//! The routing of a write log.
use crate::calculation::rows_of;
use crate::calculation::CalcId;
use crate::calculation::Input;
use crate::calculation::InputModel;
use crate::entity::EntityTypeId;
use crate::entity::FieldId;
use crate::entity::InstanceId;
use crate::predicate::holds;
use crate::predicate::Delivery;
use crate::predicate::Env;
use crate::runtime::batch::canonical;
use crate::runtime::batch::sort_rows;
use crate::runtime::eval::env_of;
use crate::runtime::eval::eval_cond;
use crate::runtime::eval::independent;
use crate::runtime::eval::EvalCtx;
use crate::runtime::fold::fold_result;
use crate::runtime::fold::fold_value;
use crate::runtime::index::Hit;
use crate::runtime::indexes::with_sub;
use crate::runtime::indexes::Indexes;
use crate::runtime::lifecycle::log_of;
use crate::runtime::lifecycle::WriteModel;
use crate::runtime::lifecycle::WriteRec;
use crate::runtime::refs::RefTable;
use crate::runtime::route::deliver_step;
use crate::runtime::route::fold_at;
use crate::runtime::route::fold_entry_ok;
use crate::runtime::route::folds_of;
use crate::runtime::route::folds_ok;
use crate::runtime::route::frame_ok;
use crate::runtime::route::lemma_fold_found;
use crate::runtime::route::rows_model;
use crate::runtime::route::trig_ok;
use crate::runtime::route::trigs_ok;
use crate::runtime::route::trigs_of;
use crate::runtime::route::BatchBuf;
use crate::runtime::route::BatchModel;
use crate::runtime::route::BatchRow;
use crate::runtime::places::Places;
use crate::runtime::route::batch_keys;
use crate::runtime::route::hit_keys;
use crate::runtime::route::latch_keys;
use crate::runtime::route::FoldTable;
use crate::runtime::route::FoldEntryModel;
use crate::runtime::route::Frame;
use crate::runtime::route::Routed;
use crate::runtime::route::Trig;
use crate::runtime::route::Trigger;
use crate::runtime::store::Store;
use crate::runtime::CalcInfo;
use crate::runtime::Determinism;
use crate::value::Val;
use crate::value::Value;
use vstd::prelude::*;

verus! {

/// What routing reads.
pub ghost struct World {
    pub store: Store,
    pub infos: Seq<CalcInfo>,
    pub idx: Indexes,
    pub refs: RefTable,
    pub tys: Seq<EntityTypeId>,
}

/// Conditions of one class agree on every write.
pub open spec fn classes_ok(infos: Seq<CalcInfo>) -> bool {
    forall|a: int, b: int, env: Env|
        #![trigger holds(infos[a].pred.cond, env), infos[b].cond_class]
        0 <= a < infos.len() && 0 <= b < infos.len() && infos[a].cond_class == infos[b].cond_class
            ==> holds(infos[a].pred.cond, env) == holds(infos[b].pred.cond, env)
}

/// The registered calculations are in order.
pub open spec fn infos_ok(infos: Seq<CalcInfo>, tys: Seq<EntityTypeId>) -> bool {
    &&& tys.len() == infos.len()
    &&& infos.len() <= u32::MAX
    &&& classes_ok(infos)
    &&& forall|c: int|
        0 <= c < infos.len() ==> {
            &&& (#[trigger] infos[c]).n_groups >= 1
            &&& infos[c].cond_indep == independent(infos[c].pred.cond)
            &&& infos[c].cond_class <= c
            &&& tys[c] == infos[c].ty
        }
}

/// The hit names a registered calculation, one of its groups, and an instance of its type.
pub open spec fn hit_ok(h: Hit, infos: Seq<CalcInfo>) -> bool {
    &&& h.calc.0 < infos.len()
    &&& h.group < infos[h.calc.0 as int].n_groups
    &&& h.sub is Some ==> h.sub->0.ty == infos[h.calc.0 as int].ty
}

/// The subscription names a registered calculation of the type and one of its groups.
pub open spec fn sub_ok(s: (CalcId, u32), ty: EntityTypeId, infos: Seq<CalcInfo>) -> bool {
    s.0.0 < infos.len() && s.1 < infos[s.0.0 as int].n_groups && infos[s.0.0 as int].ty == ty
}

/// The indexes name registered calculations and their groups only.
pub open spec fn idx_ok(idx: Indexes, infos: Seq<CalcInfo>) -> bool {
    &&& idx.wf()
    &&& forall|ty: EntityTypeId, f: FieldId, i: int|
        0 <= i < idx.own_subs(ty, f).len() ==> sub_ok(
            #[trigger] idx.own_subs(ty, f)[i],
            ty,
            infos,
        )
    &&& forall|ty: EntityTypeId, r: FieldId, f: FieldId, i: int|
        0 <= i < idx.inst_subs(ty, r, f).len() ==> sub_ok(
            #[trigger] idx.inst_subs(ty, r, f)[i],
            ty,
            infos,
        )
    &&& forall|k: u64, new: Val, old: Val, tys: Seq<EntityTypeId>, h: Hit|
        idx.type_@.contains_key(k) && #[trigger] idx.type_@[k].hits(new, old, tys).contains(h)
            ==> h.calc.0 < infos.len() && h.group < infos[h.calc.0 as int].n_groups
}

pub proof fn lemma_hits_ok(
    idx: Indexes,
    infos: Seq<CalcInfo>,
    refs: RefTable,
    w: WriteModel,
    tys: Seq<EntityTypeId>,
)
    requires
        idx_ok(idx, infos),
        tys.len() == infos.len(),
        forall|c: int| 0 <= c < infos.len() ==> #[trigger] tys[c] == infos[c].ty,
    ensures
        forall|i: int|
            0 <= i < idx.hits_of(refs, w, tys).len() ==> hit_ok(
                #[trigger] idx.hits_of(refs, w, tys)[i],
                infos,
            ),
{
    let hs = idx.hits_of(refs, w, tys);
    let a = with_sub(idx.own_subs(w.inst.ty, w.field), w.inst);
    let b = idx.type_hits(w.inst.ty, w.field, w.new, w.old, tys);
    let holders = refs.holders_of(w.inst);
    let c = idx.inst_hits(holders, w.field, holders.len() as int);
    lemma_inst_hits_ok(idx, infos, holders, w.field, holders.len() as int);
    assert forall|i: int| 0 <= i < hs.len() implies hit_ok(#[trigger] hs[i], infos) by {
        if i < a.len() {
            assert(hs[i] == a[i]);
            assert(sub_ok(idx.own_subs(w.inst.ty, w.field)[i], w.inst.ty, infos));
        } else if i < a.len() + b.len() {
            assert(hs[i] == b[i - a.len()]);
            assert(b.contains(hs[i]));
            let t = idx.type_@[crate::runtime::indexes::cell_key(w.inst.ty, w.field)];
            if hs[i].sub is Some {
                t.lemma_hit_types(w.new, w.old, tys, hs[i]);
            }
            assert(tys[hs[i].calc.0 as int] == infos[hs[i].calc.0 as int].ty);
        } else {
            assert(hs[i] == c[i - a.len() - b.len()]);
        }
    }
}

proof fn lemma_inst_hits_ok(
    idx: Indexes,
    infos: Seq<CalcInfo>,
    holders: Seq<(InstanceId, FieldId)>,
    field: FieldId,
    n: int,
)
    requires
        idx_ok(idx, infos),
    ensures
        forall|i: int|
            0 <= i < idx.inst_hits(holders, field, n).len() ==> hit_ok(
                #[trigger] idx.inst_hits(holders, field, n)[i],
                infos,
            ),
    decreases n,
{
    if n > 0 {
        lemma_inst_hits_ok(idx, infos, holders, field, n - 1);
        let h = holders[n - 1];
        let a = idx.inst_hits(holders, field, n - 1);
        let subs = idx.inst_subs(h.0.ty, h.1, field);
        let full = idx.inst_hits(holders, field, n);
        assert forall|i: int| 0 <= i < full.len() implies hit_ok(#[trigger] full[i], infos) by {
            if i < a.len() {
                assert(full[i] == a[i]);
            } else {
                assert(sub_ok(subs[i - a.len()], h.0.ty, infos));
            }
        }
    }
}

/// The condition of a calculation holds of a write, for a subscriber.
pub open spec fn wakes(world: World, calc: CalcId, sub: InstanceId, w: WriteModel) -> bool {
    holds(world.infos[calc.0 as int].pred.cond, env_of(world.store, sub, w.new, w.old))
}

/// Those of the first `n` instances that the write wakes.
pub open spec fn woken(
    world: World,
    calc: CalcId,
    subs: Seq<InstanceId>,
    w: WriteModel,
    n: int,
) -> Seq<InstanceId>
    decreases n,
{
    if n <= 0 {
        Seq::empty()
    } else if wakes(world, calc, subs[n - 1], w) {
        woken(world, calc, subs, w, n - 1).push(subs[n - 1])
    } else {
        woken(world, calc, subs, w, n - 1)
    }
}

/// The subscribers that a hit delivers to.
pub open spec fn targets_of(world: World, h: Hit, w: WriteModel) -> Seq<InstanceId> {
    match h.sub {
        Some(sub) => if world.store.is_alive(sub) && wakes(world, h.calc, sub, w) {
            seq![sub]
        } else {
            Seq::empty()
        },
        None => {
            let all = world.store.instances(world.infos[h.calc.0 as int].ty);
            woken(world, h.calc, all, w, all.len() as int)
        },
    }
}

/// The frame after delivering to the first `n` subscribers.
pub open spec fn deliver_many(
    world: World,
    f: Frame,
    calc: CalcId,
    group: u32,
    subs: Seq<InstanceId>,
    w: WriteModel,
    n: int,
) -> Frame
    decreases n,
{
    if n <= 0 {
        f
    } else {
        deliver_step(
            deliver_many(world, f, calc, group, subs, w, n - 1),
            world.infos[calc.0 as int],
            calc,
            group,
            subs[n - 1],
            w,
            world.store,
        )
    }
}

/// The frame after the first `n` hits of a write.
pub open spec fn route_hits(world: World, f: Frame, hits: Seq<Hit>, w: WriteModel, n: int) -> Frame
    decreases n,
{
    if n <= 0 {
        f
    } else {
        let h = hits[n - 1];
        let subs = targets_of(world, h, w);
        deliver_many(
            world,
            route_hits(world, f, hits, w, n - 1),
            h.calc,
            h.group,
            subs,
            w,
            subs.len() as int,
        )
    }
}

/// The frame after the first `n` writes of a log.
pub open spec fn route_log(world: World, f: Frame, log: Seq<WriteModel>, n: int) -> Frame
    decreases n,
{
    if n <= 0 {
        f
    } else {
        let w = log[n - 1];
        let hits = world.idx.hits_of(world.refs, w, world.tys);
        route_hits(world, route_log(world, f, log, n - 1), hits, w, hits.len() as int)
    }
}

/// A remembered answer is right for every calculation of its class.
pub open spec fn memo_ok(
    memo: Seq<(u32, bool)>,
    infos: Seq<CalcInfo>,
    store: Store,
    w: WriteModel,
) -> bool {
    forall|k: int, c: int|
        #![trigger memo[k], infos[c]]
        0 <= k < memo.len() && 0 <= c < infos.len() && infos[c].cond_indep && infos[c].cond_class
            == memo[k].0 ==> memo[k].1 == holds(
            infos[c].pred.cond,
            env_of(store, w.inst, w.new, w.old),
        )
}

/// Evaluates the condition of a calculation that reads nothing of the subscriber, once per
/// class and write.
fn class_answer(
    store: &Store,
    infos: &Vec<CalcInfo>,
    calc: CalcId,
    w: &WriteRec,
    memo: &mut Vec<(u32, bool)>,
) -> (r: bool)
    requires
        store.wf(),
        calc.0 < infos@.len(),
        infos@[calc.0 as int].cond_indep,
        classes_ok(infos@),
        memo_ok(old(memo)@, infos@, *store, w@),
    ensures
        memo_ok(final(memo)@, infos@, *store, w@),
        r == holds(
            infos@[calc.0 as int].pred.cond,
            env_of(*store, w.inst, w@.new, w@.old),
        ),
{
    let info = &infos[calc.0 as usize];
    let mut i: usize = 0;
    while i < memo.len()
        invariant
            i <= memo@.len(),
            *info == infos@[calc.0 as int],
            calc.0 < infos@.len(),
            info.cond_indep,
            memo_ok(memo@, infos@, *store, w@),
        decreases memo@.len() - i,
    {
        if memo[i].0 == info.cond_class {
            return memo[i].1;
        }
        i = i + 1;
    }
    let ctx = EvalCtx { store, sub: w.inst, new: &w.new, old: &w.old };
    let v = eval_cond(&info.pred.cond, &ctx);
    let ghost before = memo@;
    memo.push((info.cond_class, v));
    proof {
        assert forall|k: int, c: int|
            #![trigger memo@[k], infos@[c]]
            0 <= k < memo@.len() && 0 <= c < infos@.len() && infos@[c].cond_indep
                && infos@[c].cond_class == memo@[k].0 implies memo@[k].1 == holds(
            infos@[c].pred.cond,
            env_of(*store, w.inst, w@.new, w@.old),
        ) by {
            if k < before.len() {
                assert(memo@[k] == before[k]);
            } else {
                let e = env_of(*store, w.inst, w@.new, w@.old);
                assert(holds(infos@[calc.0 as int].pred.cond, e) == holds(infos@[c].pred.cond, e));
            }
        }
    }
    v
}

proof fn lemma_woken_all(
    world: World,
    calc: CalcId,
    subs: Seq<InstanceId>,
    w: WriteModel,
    n: int,
    answer: bool,
)
    requires
        0 <= n <= subs.len(),
        forall|i: int|
            0 <= i < subs.len() ==> wakes(world, calc, #[trigger] subs[i], w) == answer,
    ensures
        woken(world, calc, subs, w, n) == (if answer {
            subs.take(n)
        } else {
            Seq::empty()
        }),
    decreases n,
{
    if n > 0 {
        lemma_woken_all(world, calc, subs, w, n - 1, answer);
        if answer {
            assert(subs.take(n) =~= subs.take(n - 1).push(subs[n - 1]));
        }
    } else {
        assert(subs.take(0) =~= Seq::empty());
    }
}

/// The subscribers that a hit delivers to.
fn targets(
    store: &Store,
    infos: &Vec<CalcInfo>,
    h: Hit,
    w: &WriteRec,
    memo: &mut Vec<(u32, bool)>,
    world: Ghost<World>,
) -> (r: Vec<InstanceId>)
    requires
        store.wf(),
        world@.store == *store,
        world@.infos == infos@,
        infos_ok(infos@, world@.tys),
        hit_ok(h, infos@),
        memo_ok(old(memo)@, infos@, *store, w@),
    ensures
        memo_ok(final(memo)@, infos@, *store, w@),
        r@ == targets_of(world@, h, w@),
        forall|k: int| 0 <= k < r@.len() ==> (#[trigger] r@[k]).ty == infos@[h.calc.0 as int].ty,
{
    let info = &infos[h.calc.0 as usize];
    let mut out: Vec<InstanceId> = Vec::new();
    match h.sub {
        Some(sub) => {
            if store.alive(sub) {
                let ctx = EvalCtx { store, sub, new: &w.new, old: &w.old };
                if eval_cond(&info.pred.cond, &ctx) {
                    out.push(sub);
                }
            }
            assert(out@ =~= targets_of(world@, h, w@));
            out
        },
        None => {
            let all = store.alive_instances(info.ty);
            proof {
                crate::runtime::store::law_instances_are_the_alive_ones(*store, info.ty);
                assert forall|k: int| 0 <= k < all@.len() implies (#[trigger] all@[k]).ty
                    == info.ty by {
                    assert(all@.contains(all@[k]));
                }
            }
            if info.cond_indep {
                let v = class_answer(store, infos, h.calc, w, memo);
                proof {
                    assert forall|i: int| 0 <= i < all@.len() implies wakes(
                        world@,
                        h.calc,
                        #[trigger] all@[i],
                        w@,
                    ) == v by {
                        crate::runtime::eval::law_independent(
                            info.pred.cond,
                            env_of(*store, all@[i], w@.new, w@.old),
                            env_of(*store, w.inst, w@.new, w@.old),
                        );
                    }
                    lemma_woken_all(world@, h.calc, all@, w@, all@.len() as int, v);
                    assert(all@.take(all@.len() as int) =~= all@);
                }
                if v {
                    all
                } else {
                    assert(out@ =~= targets_of(world@, h, w@));
                    out
                }
            } else {
                let mut i: usize = 0;
                while i < all.len()
                    invariant
                        store.wf(),
                        world@.store == *store,
                        world@.infos == infos@,
                        *info == infos@[h.calc.0 as int],
                        forall|k: int| 0 <= k < all@.len() ==> (#[trigger] all@[k]).ty == info.ty,
                        forall|k: int| 0 <= k < out@.len() ==> (#[trigger] out@[k]).ty == info.ty,
                        i <= all@.len(),
                        out@ == woken(world@, h.calc, all@, w@, i as int),
                    decreases all@.len() - i,
                {
                    let ctx = EvalCtx { store, sub: all[i], new: &w.new, old: &w.old };
                    if eval_cond(&info.pred.cond, &ctx) {
                        out.push(all[i]);
                    }
                    i = i + 1;
                }
                out
            }
        },
    }
}

impl Routed {
    /// Routes one write.
    fn route_write(
        &mut self,
        store: &Store,
        infos: &Vec<CalcInfo>,
        hits: &Vec<Hit>,
        w: &WriteRec,
        world: Ghost<World>,
    )
        requires
            old(self).ok(infos@),
            store.wf(),
            world@.store == *store,
            world@.infos == infos@,
            infos_ok(infos@, world@.tys),
            forall|i: int| 0 <= i < hits@.len() ==> hit_ok(#[trigger] hits@[i], infos@),
        ensures
            final(self).ok(infos@),
            final(self)@ == route_hits(world@, old(self)@, hits@, w@, hits@.len() as int),
    {
        let ghost before = self@;
        let mut memo: Vec<(u32, bool)> = Vec::new();
        let mut i: usize = 0;
        while i < hits.len()
            invariant
                self.ok(infos@),
                store.wf(),
                world@.store == *store,
                world@.infos == infos@,
                infos_ok(infos@, world@.tys),
                forall|k: int| 0 <= k < hits@.len() ==> hit_ok(#[trigger] hits@[k], infos@),
                memo_ok(memo@, infos@, *store, w@),
                i <= hits@.len(),
                self@ == route_hits(world@, before, hits@, w@, i as int),
            decreases hits@.len() - i,
        {
            let h = hits[i];
            assert(hit_ok(h, infos@));
            let subs = targets(store, infos, h, w, &mut memo, world);
            let ghost part = self@;
            let mut j: usize = 0;
            while j < subs.len()
                invariant
                    self.ok(infos@),
                    store.wf(),
                    world@.store == *store,
                    world@.infos == infos@,
                    hit_ok(h, infos@),
                    forall|k: int|
                        0 <= k < subs@.len() ==> (#[trigger] subs@[k]).ty
                            == infos@[h.calc.0 as int].ty,
                    j <= subs@.len(),
                    self@ == deliver_many(world@, part, h.calc, h.group, subs@, w@, j as int),
                decreases subs@.len() - j,
            {
                self.deliver(infos, h.calc, h.group, subs[j], w, store);
                j = j + 1;
            }
            i = i + 1;
        }
    }

    /// Routes a log of writes.
    pub fn route_writes(
        &mut self,
        store: &Store,
        infos: &Vec<CalcInfo>,
        idx: &Indexes,
        refs: &RefTable,
        tys: &Vec<EntityTypeId>,
        writes: &Vec<WriteRec>,
        world: Ghost<World>,
    )
        requires
            old(self).ok(infos@),
            store.wf(),
            world@ == (World { store: *store, infos: infos@, idx: *idx, refs: *refs, tys: tys@ }),
            infos_ok(infos@, tys@),
            idx_ok(*idx, infos@),
        ensures
            final(self).ok(infos@),
            final(self)@ == route_log(world@, old(self)@, log_of(writes@), writes@.len() as int),
    {
        let ghost before = self@;
        let ghost log = log_of(writes@);
        let mut i: usize = 0;
        while i < writes.len()
            invariant
                self.ok(infos@),
                store.wf(),
                world@ == (World {
                    store: *store,
                    infos: infos@,
                    idx: *idx,
                    refs: *refs,
                    tys: tys@,
                }),
                infos_ok(infos@, tys@),
                idx_ok(*idx, infos@),
                log == log_of(writes@),
                i <= writes@.len(),
                self@ == route_log(world@, before, log, i as int),
            decreases writes@.len() - i,
        {
            let w = &writes[i];
            let hits = idx.hits(refs, w, tys);
            proof {
                assert forall|c: int| 0 <= c < infos@.len() implies #[trigger] tys@[c]
                    == infos@[c].ty by {
                    assert(infos@[c].n_groups >= 1);
                }
                lemma_hits_ok(*idx, infos@, *refs, w@, tys@);
            }
            self.route_write(store, infos, &hits, w, world);
            i = i + 1;
        }
    }
}

/// The aggregates to deliver although no write touched them: those that lost a member. Dead
/// subscribers get nothing.
pub open spec fn dirty_hits(store: Store, dirty: Seq<(CalcId, InstanceId)>, n: int) -> Seq<
    (CalcId, InstanceId),
>
    decreases n,
{
    if n <= 0 {
        Seq::empty()
    } else {
        let r = dirty_hits(store, dirty, n - 1);
        let d = dirty[n - 1];
        if store.is_alive(d.1) && !r.contains(d) {
            r.push(d)
        } else {
            r
        }
    }
}

/// The trigger that a batch becomes.
pub open spec fn batch_trig(b: BatchModel, det: Determinism) -> Trig {
    let rows = if det == Determinism::Canonical {
        canonical(b.rows)
    } else {
        b.rows
    };
    Trig {
        calc: b.calc,
        sub: b.sub,
        input: InputModel::Batch(Seq::new(rows.len(), |i: int| rows[i].row)),
    }
}

/// The trigger that delivers an aggregate.
pub open spec fn fold_trig(
    infos: Seq<CalcInfo>,
    folds: Seq<FoldEntryModel>,
    h: (CalcId, InstanceId),
) -> Trig {
    Trig {
        calc: h.0,
        sub: h.1,
        input: InputModel::Fold(
            fold_result(
                infos[h.0.0 as int].pred.delivery->Fold_0,
                folds[fold_at(folds, h.0, h.1)].acc,
            ),
        ),
    }
}

/// The triggers of a frame: the hits one by one, then the batches, then the aggregates.
pub open spec fn frame_triggers(f: Frame, infos: Seq<CalcInfo>, det: Determinism) -> Seq<Trig> {
    f.triggers + Seq::new(f.batches.len(), |i: int| batch_trig(f.batches[i], det)) + Seq::new(
        f.fold_hits.len(),
        |i: int| fold_trig(infos, f.folds, f.fold_hits[i]),
    )
}

/// What routing starts from.
pub open spec fn start_frame(
    store: Store,
    folds: Seq<FoldEntryModel>,
    dirty: Seq<(CalcId, InstanceId)>,
) -> Frame {
    Frame {
        triggers: Seq::empty(),
        batches: Seq::empty(),
        latches: Seq::empty(),
        folds,
        fold_hits: dirty_hits(store, dirty, dirty.len() as int),
    }
}

/// Every aggregate that lost a member is still kept.
pub open spec fn dirty_ok(
    dirty: Seq<(CalcId, InstanceId)>,
    folds: Seq<FoldEntryModel>,
    infos: Seq<CalcInfo>,
) -> bool {
    forall|i: int|
        0 <= i < dirty.len() ==> (#[trigger] dirty[i]).0.0 < infos.len()
            && infos[dirty[i].0.0 as int].pred.delivery is Fold && fold_at(
            folds,
            dirty[i].0,
            dirty[i].1,
        ) < folds.len()
}

fn seed_hits(store: &Store, dirty: &Vec<(CalcId, InstanceId)>) -> (r: (
    Vec<(CalcId, InstanceId)>,
    Places,
))
    requires
        store.wf(),
    ensures
        r.0@ == dirty_hits(*store, dirty@, dirty@.len() as int),
        r.1.indexes(hit_keys(r.0@)),
        forall|i: int| 0 <= i < r.0@.len() ==> dirty@.contains(#[trigger] r.0@[i]),
{
    let mut out: Vec<(CalcId, InstanceId)> = Vec::new();
    let mut places = Places::new();
    let mut i: usize = 0;
    assert(hit_keys(out@) =~= Seq::empty());
    assert(out@ =~= Seq::empty());
    while i < dirty.len()
        invariant
            store.wf(),
            i <= dirty@.len(),
            out@ == dirty_hits(*store, dirty@, i as int),
            places.indexes(hit_keys(out@)),
            forall|k: int| 0 <= k < out@.len() ==> dirty@.contains(#[trigger] out@[k]),
        decreases dirty@.len() - i,
    {
        let d = dirty[i];
        if store.alive(d.1) {
            let p = places.get((d.0.0, d.1));
            let ghost keys = hit_keys(out@);
            proof {
                if p is Some {
                    assert(keys[p->0 as int] == (d.0.0, d.1));
                    assert(out@[p->0 as int] == d);
                } else if out@.contains(d) {
                    let k = choose|k: int| 0 <= k < out@.len() && out@[k] == d;
                    assert(places.place(keys[k]) == Some(k as usize));
                }
            }
            if p.is_none() {
                let n = out.len();
                places.put((d.0.0, d.1), n, Ghost(keys));
                out.push(d);
                assert(hit_keys(out@) =~= keys.push((d.0.0, d.1)));
            }
        }
        i = i + 1;
    }
    (out, places)
}

fn rows_only(rows: Vec<BatchRow>) -> (r: Vec<Vec<Value>>)
    ensures
        rows_of(r@) == Seq::new(
            rows_model(rows@).len(),
            |i: int| rows_model(rows@)[i].row,
        ),
{
    let mut rest = rows;
    let mut rev: Vec<Vec<Value>> = Vec::new();
    while rest.len() > 0
        invariant
            rest@.len() <= rows@.len(),
            rest@ == rows@.take(rest@.len() as int),
            rev@.len() + rest@.len() == rows@.len(),
            forall|i: int|
                0 <= i < rev@.len() ==> #[trigger] rev@[i] == rows@[rows@.len() - 1 - i].row,
        decreases rest@.len(),
    {
        let ghost n = rest@.len();
        let x = rest.pop().unwrap();
        assert(x == rows@[n - 1]);
        rev.push(x.row);
        assert(rest@ =~= rows@.take(n - 1));
    }
    let mut out: Vec<Vec<Value>> = Vec::new();
    while rev.len() > 0
        invariant
            rev@.len() + out@.len() == rows@.len(),
            forall|i: int|
                0 <= i < rev@.len() ==> #[trigger] rev@[i] == rows@[rows@.len() - 1 - i].row,
            forall|i: int| 0 <= i < out@.len() ==> #[trigger] out@[i] == rows@[i].row,
        decreases rev@.len(),
    {
        out.push(rev.pop().unwrap());
    }
    assert(rows_of(out@) =~= Seq::new(
        rows_model(rows@).len(),
        |i: int| rows_model(rows@)[i].row,
    ));
    out
}

/// Turns the batches into triggers, in order.
fn emit_batches(batches: Vec<BatchBuf>, det: Determinism, out: &mut Vec<Trigger>)
    ensures
        trigs_of(final(out)@) == trigs_of(old(out)@) + Seq::new(
            batches@.len(),
            |i: int| batch_trig(batches@[i]@, det),
        ),
{
    let ghost before = trigs_of(out@);
    let ghost n = batches@.len();
    let mut rest = batches;
    let mut rev: Vec<BatchBuf> = Vec::new();
    while rest.len() > 0
        invariant
            n == batches@.len(),
            rest@.len() <= n,
            rest@ == batches@.take(rest@.len() as int),
            rev@.len() + rest@.len() == n,
            forall|i: int| 0 <= i < rev@.len() ==> #[trigger] rev@[i] == batches@[n - 1 - i],
        decreases rest@.len(),
    {
        let ghost m = rest@.len();
        let x = rest.pop().unwrap();
        assert(x == batches@[m - 1]);
        rev.push(x);
        assert(rest@ =~= batches@.take(m - 1));
    }
    assert(trigs_of(out@) =~= before + Seq::new(0, |i: int| batch_trig(batches@[i]@, det)));
    while rev.len() > 0
        invariant
            n == batches@.len(),
            rev@.len() <= n,
            forall|i: int| 0 <= i < rev@.len() ==> #[trigger] rev@[i] == batches@[n - 1 - i],
            trigs_of(out@) == before + Seq::new(
                (n - rev@.len()) as nat,
                |i: int| batch_trig(batches@[i]@, det),
            ),
        decreases rev@.len(),
    {
        let ghost k = n - rev@.len();
        let ghost part = out@;
        let b = rev.pop().unwrap();
        assert(b == batches@[k]);
        let rows = if matches!(det, Determinism::Canonical) {
            sort_rows(b.rows)
        } else {
            b.rows
        };
        let t = Trigger { calc: b.calc, subscriber: b.sub, input: Input::Batch(rows_only(rows)) };
        assert(t@ == batch_trig(batches@[k]@, det));
        let ghost tm = t@;
        out.push(t);
        assert(trigs_of(out@) =~= trigs_of(part).push(tm));
        assert(trigs_of(out@) =~= before + Seq::new(
            (k + 1) as nat,
            |i: int| batch_trig(batches@[i]@, det),
        ));
    }
}

/// Routes the writes of the last frame: looks up the subscriptions, evaluates the
/// conditions, and gives the triggers of this frame. The aggregates move on.
pub fn route(
    store: &Store,
    idx: &Indexes,
    refs: &RefTable,
    infos: &Vec<CalcInfo>,
    tys: &Vec<EntityTypeId>,
    folds: FoldTable,
    writes: &Vec<WriteRec>,
    det: Determinism,
    dirty: &Vec<(CalcId, InstanceId)>,
) -> (r: (Vec<Trigger>, FoldTable))
    requires
        store.wf(),
        infos_ok(infos@, tys@),
        idx_ok(*idx, infos@),
        folds.wf(),
        folds_ok(folds_of(folds@), infos@),
        dirty_ok(dirty@, folds_of(folds@), infos@),
    ensures
        ({
            let world = World { store: *store, infos: infos@, idx: *idx, refs: *refs, tys: tys@ };
            let f = route_log(
                world,
                start_frame(*store, folds_of(folds@), dirty@),
                log_of(writes@),
                writes@.len() as int,
            );
            &&& frame_ok(f, infos@)
            &&& trigs_of(r.0@) == frame_triggers(f, infos@, det)
            &&& trigs_ok(trigs_of(r.0@), infos@)
            &&& folds_of(r.1@) == f.folds
            &&& r.1.wf()
        }),
{
    let ghost world = World { store: *store, infos: infos@, idx: *idx, refs: *refs, tys: tys@ };
    let (fold_hits, hit_places) = seed_hits(store, dirty);
    let mut st = Routed {
        triggers: Vec::new(),
        batches: Vec::new(),
        batch_places: Places::new(),
        latches: Vec::new(),
        latch_places: Places::new(),
        folds,
        fold_hits,
        hit_places,
    };
    let ghost start = start_frame(*store, folds_of(folds@), dirty@);
    proof {
        assert(st@.triggers =~= start.triggers);
        assert(st@.batches =~= start.batches);
        assert(st@.latches =~= start.latches);
        assert(st@ == start);
        assert(batch_keys(st@.batches) =~= Seq::empty());
        assert(latch_keys(st@.latches) =~= Seq::empty());
        assert forall|i: int| 0 <= i < start.fold_hits.len() implies (
        #[trigger] start.fold_hits[i]).0.0 < infos@.len()
            && infos@[start.fold_hits[i].0.0 as int].pred.delivery is Fold && fold_at(
            start.folds,
            start.fold_hits[i].0,
            start.fold_hits[i].1,
        ) < start.folds.len() by {
            assert(dirty@.contains(start.fold_hits[i]));
            let k = choose|k: int| 0 <= k < dirty@.len() && dirty@[k] == start.fold_hits[i];
            assert(dirty@[k].0.0 < infos@.len());
        }
    }
    st.route_writes(store, infos, idx, refs, tys, writes, Ghost(world));
    let ghost f = st@;
    let Routed {
        triggers,
        batches,
        batch_places: _,
        latches: _,
        latch_places: _,
        folds,
        fold_hits,
        hit_places: _,
    } = st;
    let mut out = triggers;
    emit_batches(batches, det, &mut out);
    let ghost mid = trigs_of(out@);
    proof {
        assert(mid =~= f.triggers + Seq::new(
            f.batches.len(),
            |i: int| batch_trig(f.batches[i], det),
        ));
    }
    let mut i: usize = 0;
    assert(trigs_of(out@) =~= mid + Seq::new(
        0,
        |k: int| fold_trig(infos@, f.folds, f.fold_hits[k]),
    ));
    while i < fold_hits.len()
        invariant
            frame_ok(f, infos@),
            fold_hits@ == f.fold_hits,
            folds.wf(),
            folds_of(folds@) == f.folds,
            i <= fold_hits@.len(),
            trigs_of(out@) == mid + Seq::new(
                i as nat,
                |k: int| fold_trig(infos@, f.folds, f.fold_hits[k]),
            ),
        decreases fold_hits@.len() - i,
    {
        let (c, sub) = fold_hits[i];
        let ghost part = out@;
        assert(f.fold_hits[i as int].0.0 < infos@.len());
        let k = folds.find(c, sub);
        proof {
            assert(fold_entry_ok(f.folds[k as int], infos@));
        }
        if let Delivery::Fold(op) = &infos[c.0 as usize].pred.delivery {
            let t = Trigger {
                calc: c,
                subscriber: sub,
                input: Input::Fold(fold_value(*op, &folds.entries[k].acc)),
            };
            assert(t@ == fold_trig(infos@, f.folds, f.fold_hits[i as int]));
            let ghost tm = t@;
            out.push(t);
            assert(trigs_of(out@) =~= trigs_of(part).push(tm));
            assert(trigs_of(out@) =~= mid + Seq::new(
                (i + 1) as nat,
                |k: int| fold_trig(infos@, f.folds, f.fold_hits[k]),
            ));
        }
        i = i + 1;
    }
    proof {
        let ts = frame_triggers(f, infos@, det);
        assert(trigs_of(out@) == ts);
        assert forall|k: int| 0 <= k < ts.len() implies trig_ok(#[trigger] ts[k], infos@) by {
            let a = f.triggers.len() as int;
            let b = f.batches.len() as int;
            if k < a {
                assert(ts[k] == f.triggers[k]);
            } else if k < a + b {
                assert(ts[k] == batch_trig(f.batches[k - a], det));
            } else {
                let h = f.fold_hits[k - a - b];
                assert(ts[k] == fold_trig(infos@, f.folds, h));
                lemma_fold_found(f.folds, h.0, h.1);
                assert(fold_entry_ok(f.folds[fold_at(f.folds, h.0, h.1)], infos@));
            }
        }
    }
    (out, folds)
}

}
